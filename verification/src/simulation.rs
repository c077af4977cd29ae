//! The end-to-end statement the lowering exists for: a lowered program
//! simulates its Turing machine. A machine configuration is read off the
//! substrate state exactly as the lowering encodes it; one iteration of
//! the main loop performs one machine step; and when the machine halts
//! within some number of steps, the whole compiled program halts with
//! exactly `ACCEPT` or exactly `REJECT` on its output.
//!
//! The theorem asks for state ids `1..n` in order (the countdown dispatch
//! pairs the `k`-th emitted block with counter value `k`, so ids must
//! equal their dispatch ordinals) and for every configuration of the run
//! to fit the machine word.
//!
//! Only this forward direction is stated. Together with determinism it
//! also pins every completed run: whatever budget completes, the output
//! is the machine's verdict (`lemma_any_completed_run_prints_verdict`).
//! The remaining converse — that a completed run of the compiled program
//! implies the machine halts at all — is left unstated: it would need,
//! for every loop the lowering emits, a lemma covering the failing and
//! overflowing executions as well as the completing ones.

use vstd::prelude::*;
use crate::ast::{Char, Program, State, StateId, TapeInstruction};
use crate::compile::{
    accept_bytes, incr_n, ingest_body, reject_bytes, spec_compile_program, spec_find_transition,
    spec_initial_id, spec_print_bytes, spec_sorted_ids, spec_state_for, spec_states_code,
};
use crate::laws::{
    bytes_as_ints, lemma_dispatch_iteration, lemma_dispatch_iteration_blank,
    lemma_postlude_prints_verdict, lemma_prelude_ingests_input, lemma_run_seq_append,
    lemma_run_seq_step, spec_tape_effect,
};
use crate::semantics::{
    init_state, lemma_fuel_mono_instr, lemma_fuel_mono_seq, spec_run_instr, spec_run_seq, MState,
    Outcome, SpecInstr,
};

verus! {

/// A Turing machine configuration as the lowered program encodes it at
/// each iteration boundary: the current state id (positive while the
/// machine runs, `0` or `-1` after a verdict), the packed left tape, the
/// head character, and the right tape beyond the head with the nearest
/// cell last.
pub ghost struct TmConfig {
    pub state: int,
    pub lt: int,
    pub head: int,
    pub rtape: Seq<int>,
}

/// One machine step from a live configuration: the dispatched state is
/// the one whose block the countdown selects, `ids[state - 1]`.
pub open spec fn spec_tm_step(states: Seq<State>, ids: Seq<StateId>, c: TmConfig) -> TmConfig {
    let s = spec_state_for(states, ids[c.state - 1]);
    match spec_find_transition(s.transitions@, c.head as Char) {
        Some(t) => match t.tape_instruction {
            TapeInstruction::Write(ch) => TmConfig {
                state: t.next_state as int,
                head: ch as int,
                ..c
            },
            TapeInstruction::Right => TmConfig {
                state: t.next_state as int,
                lt: 128 * c.lt + c.head,
                head: if c.rtape.len() > 0 {
                    c.rtape.last()
                } else {
                    0
                },
                rtape: if c.rtape.len() > 0 {
                    c.rtape.drop_last()
                } else {
                    Seq::empty()
                },
            },
            TapeInstruction::Left => TmConfig {
                state: t.next_state as int,
                lt: c.lt / 128,
                head: c.lt % 128,
                rtape: c.rtape.push(c.head),
            },
        },
        None => TmConfig {
            state: if s.accepting {
                0int
            } else {
                -1int
            },
            ..c
        },
    }
}

/// Whether the machine halts within `n` more steps, and how it ends
/// when it does: `Some(true)` to accept, `Some(false)` to reject, and
/// `None` when `n` steps do not suffice (or the configuration is not
/// live).
pub open spec fn spec_tm_verdict(states: Seq<State>, ids: Seq<StateId>, c: TmConfig, n: nat) -> Option<
    bool,
>
    decreases n,
{
    if !(1 <= c.state <= ids.len()) {
        None
    } else {
        let s = spec_state_for(states, ids[c.state - 1]);
        match spec_find_transition(s.transitions@, c.head as Char) {
            None => Some(s.accepting),
            Some(_) => if n == 0 {
                None
            } else {
                spec_tm_verdict(states, ids, spec_tm_step(states, ids, c), (n - 1) as nat)
            },
        }
    }
}

/// Every configuration of an `n`-step run fits the machine word: the
/// head is a character, the packed left tape is nonnegative, and packing
/// one more character cannot overflow.
pub open spec fn spec_run_fits(states: Seq<State>, ids: Seq<StateId>, c: TmConfig, n: nat) -> bool
    decreases n,
{
    &&& 0 <= c.head < 128
    &&& 0 <= c.lt
    &&& 128 * c.lt + c.head + 1 <= i64::MAX
    &&& (n > 0 ==> spec_run_fits(states, ids, spec_tm_step(states, ids, c), (n - 1) as nat))
}

/// The substrate state holds the configuration: the state id in `A`,
/// `I = 0`, errors disabled, and the tape on the stack — either with the
/// head materialized, or, for a blank head past the written tape, just
/// the packed left tape.
pub open spec fn spec_encodes(st: MState, c: TmConfig) -> bool {
    &&& st.i == 0
    &&& st.a == c.state
    &&& !st.errors
    &&& (st.stack == c.rtape.push(c.head).push(c.lt) || (c.head == 0 && c.rtape.len() == 0
        && st.stack == seq![c.lt]))
}

/// The configuration the prelude leaves behind: the initial state id,
/// the empty left tape, and the (pre-reversed) input as head and right
/// tape.
pub open spec fn spec_initial_config(p: Program, input: Seq<u8>) -> TmConfig {
    TmConfig {
        state: spec_initial_id(p.states@) as int,
        lt: 0,
        head: if input.len() > 0 {
            input.last() as int
        } else {
            0
        },
        rtape: if input.len() > 0 {
            bytes_as_ints(input.drop_last())
        } else {
            Seq::empty()
        },
    }
}

/// A transition list whose match characters are all legal has no
/// transition on the blank.
proof fn lemma_no_blank_transition(trs: Seq<crate::ast::Transition>)
    requires
        forall|k: int|
            0 <= k < trs.len() ==> crate::utils::spec_valid_char(
                (#[trigger] trs[k]).match_char,
            ),
    ensures
        spec_find_transition(trs, 0) is None,
    decreases trs.len(),
{
    if trs.len() > 0 {
        assert(trs[trs.len() - 1] == trs.last());
        assert(forall|k: int|
            0 <= k < trs.drop_last().len() ==> crate::utils::spec_valid_char(
                (#[trigger] trs.drop_last()[k]).match_char,
            ));
        lemma_no_blank_transition(trs.drop_last());
    }
}

/// The hypotheses the dispatch loop needs of every dispatchable state:
/// no transition on the blank, and next-state ids that fit the word.
spec fn spec_dispatch_ok(states: Seq<State>, ids: Seq<StateId>) -> bool {
    forall|j: int|
        0 <= j < ids.len() ==> {
            let s = #[trigger] spec_state_for(states, ids[j]);
            spec_find_transition(s.transitions@, 0) is None && (forall|k: int|
                0 <= k < s.transitions@.len() ==> (#[trigger] s.transitions@[k]).next_state
                    <= i64::MAX)
        }
}

/// The main dispatch loop stops once the machine decides. From a state
/// encoding a live configuration whose machine halts within `n` steps,
/// the loop completes with the verdict sentinel in `A`, `I = 0`, and
/// nothing printed.
proof fn lemma_main_loop_halts(
    states: Seq<State>,
    ids: Seq<StateId>,
    st: MState,
    c: TmConfig,
    n: nat,
    v: bool,
)
    requires
        spec_encodes(st, c),
        spec_tm_verdict(states, ids, c, n) == Some(v),
        spec_run_fits(states, ids, c, n),
        spec_dispatch_ok(states, ids),
        ids.len() < i64::MAX as int,
    ensures
        exists|f: nat, st2: MState|
            {
                &&& spec_run_instr(
                    st,
                    SpecInstr::While(
                        spec_states_code(states, ids) + seq![SpecInstr::PopToActive],
                    ),
                    f,
                ) == Outcome::Done(st2)
                &&& st2.a == (if v {
                    0int
                } else {
                    -1int
                })
                &&& st2.i == 0
                &&& st2.output == st.output
                &&& st2.errors == st.errors
                &&& st2.input == st.input
                &&& st2.pos == st.pos
            },
    decreases n,
{
    let body = spec_states_code(states, ids) + seq![SpecInstr::PopToActive];
    let w = SpecInstr::While(body);
    let s = spec_state_for(states, ids[c.state - 1]);
    match spec_find_transition(s.transitions@, c.head as Char) {
        None => {
            // The machine halts here: one more iteration pushes and pops
            // the verdict sentinel, then the loop test sees `A <= 0`.
            let fb: nat = (128 * c.lt + c.head + 2) as nat;
            let st2 = if st.stack == c.rtape.push(c.head).push(c.lt) {
                lemma_dispatch_iteration(states, ids, st, c.head, c.lt, c.rtape, fb);
                MState {
                    a: if s.accepting {
                        0int
                    } else {
                        -1int
                    },
                    i: 0,
                    stack: c.rtape.push(c.head).push(c.lt),
                    ..st
                }
            } else {
                assert(c.head == 0);
                lemma_dispatch_iteration_blank(states, ids, st, c.lt, fb);
                MState {
                    a: if s.accepting {
                        0int
                    } else {
                        -1int
                    },
                    i: 0,
                    stack: seq![0int].push(c.lt),
                    ..st
                }
            };
            assert(spec_run_seq(st, body, fb) == Outcome::Done(st2));
            assert(st2.a <= 0);
            assert(spec_run_instr(st2, w, fb) == Outcome::Done(st2));
            assert(spec_run_instr(st, w, fb + 1) == Outcome::Done(st2)) by {
                lemma_fuel_mono_seq(st, body, fb, fb + 1);
            }
            assert(v == s.accepting);
        },
        Some(t) => {
            // One machine step: the iteration lemma carries the encoding
            // to the next configuration, and the loop recurses on it.
            let c2 = spec_tm_step(states, ids, c);
            assert(st.stack == c.rtape.push(c.head).push(c.lt)) by {
                if !(st.stack == c.rtape.push(c.head).push(c.lt)) {
                    assert(c.head == 0);
                    assert(spec_find_transition(s.transitions@, 0) is None);
                }
            }
            let fb: nat = (128 * c.lt + c.head + 2) as nat;
            lemma_dispatch_iteration(states, ids, st, c.head, c.lt, c.rtape, fb);
            let effect = spec_tape_effect(t.tape_instruction, c.lt, c.head, c.rtape);
            let st2 = MState {
                a: t.next_state as int,
                i: 0,
                stack: effect.1.push(effect.0),
                ..st
            };
            assert(spec_run_seq(st, body, fb) == Outcome::Done(st2));
            assert(spec_encodes(st2, c2)) by {
                match t.tape_instruction {
                    TapeInstruction::Write(ch) => {
                        assert(st2.stack == c2.rtape.push(c2.head).push(c2.lt));
                    },
                    TapeInstruction::Left => {
                        assert(st2.stack == c2.rtape.push(c2.head).push(c2.lt));
                    },
                    TapeInstruction::Right => {
                        if c.rtape.len() > 0 {
                            assert(c2.rtape.push(c2.head).push(c2.lt) =~= c.rtape.push(
                                128 * c.lt + c.head,
                            ));
                        } else {
                            assert(st2.stack =~= seq![c2.lt]);
                        }
                    },
                }
            }
            lemma_main_loop_halts(states, ids, st2, c2, (n - 1) as nat, v);
            let (f2, st3) = choose|f2: nat, st3: MState|
                {
                    &&& spec_run_instr(st2, w, f2) == Outcome::Done(st3)
                    &&& st3.a == (if v {
                        0int
                    } else {
                        -1int
                    })
                    &&& st3.i == 0
                    &&& st3.output == st2.output
                    &&& st3.errors == st2.errors
                    &&& st3.input == st2.input
                    &&& st3.pos == st2.pos
                };
            let fm: nat = if fb >= f2 {
                fb
            } else {
                f2
            };
            lemma_fuel_mono_seq(st, body, fb, fm + 1);
            lemma_fuel_mono_instr(st2, w, f2, fm);
            assert(st.a == c.state > 0);
            assert(spec_run_instr(st, w, fm + 1) == Outcome::Done(st3));
        },
    }
}

/// The constructive purpose of the lowering, end to end: take a
/// well-formed program whose state ids are exactly `1..n` in ascending
/// order, and an input of legal characters whose simulation halts within
/// some number of steps, every configuration on the way fitting the
/// machine word. Then the compiled substrate program, run from its start
/// state on that input, halts with exactly `ACCEPT` or exactly `REJECT`
/// — matching the machine's verdict — as its whole output.
///
/// This is the forward direction only; that a completed run implies the
/// machine halts is left unstated (see the module note).
pub proof fn lemma_compiled_program_prints_verdict(
    p: Program,
    input: Seq<u8>,
    n: nat,
    v: bool,
)
    requires
        crate::validate::spec_wf(p),
        p.states@.len() < i64::MAX as int,
        forall|k: int|
            0 <= k < spec_sorted_ids(p.states@).len() ==> #[trigger] spec_sorted_ids(p.states@)[k]
                == k + 1,
        forall|k: int| 0 <= k < input.len() ==> 1 <= #[trigger] input[k] < 128,
        spec_tm_verdict(
            p.states@,
            spec_sorted_ids(p.states@),
            spec_initial_config(p, input),
            n,
        ) == Some(v),
        spec_run_fits(p.states@, spec_sorted_ids(p.states@), spec_initial_config(p, input), n),
    ensures
        exists|f: nat, st2: MState|
            spec_run_seq(init_state(input), spec_compile_program(p), f) == Outcome::Done(st2)
                && st2.output == (if v {
                accept_bytes()
            } else {
                reject_bytes()
            }),
{
    let states = p.states@;
    let ids = spec_sorted_ids(states);
    let c0 = spec_initial_config(p, input);
    let init_id = spec_initial_id(states);

    // Every id the dispatch can reach names a real state, whose
    // transitions are well-formed.
    crate::compile::lemma_state_blocks_ascending(p);
    broadcast use vstd::seq_lib::group_to_multiset_ensures;

    assert forall|j: int| 0 <= j < ids.len() implies {
        let s = #[trigger] spec_state_for(states, ids[j]);
        spec_find_transition(s.transitions@, 0) is None && (forall|k: int|
            0 <= k < s.transitions@.len() ==> (#[trigger] s.transitions@[k]).next_state
                <= i64::MAX)
    } by {
        lemma_state_for_is_a_state(p, ids, j);
        let s = spec_state_for(states, ids[j]);
        let w = choose|w: int| 0 <= w < states.len() && states[w] == s;
        assert forall|k: int|
            0 <= k < s.transitions@.len() implies crate::utils::spec_valid_char(
            (#[trigger] s.transitions@[k]).match_char,
        ) by {
            assert(states[w].transitions@[k] == s.transitions@[k]);
        }
        lemma_no_blank_transition(s.transitions@);
        assert forall|k: int|
            0 <= k < s.transitions@.len() implies (#[trigger] s.transitions@[k]).next_state
            <= i64::MAX by {
            assert(crate::validate::spec_has_state(states, s.transitions@[k].next_state));
            lemma_declared_id_is_small(p, ids, s.transitions@[k].next_state);
        }
    }
    assert(spec_dispatch_ok(states, ids));

    // The initial state id is one of the dispatch ordinals.
    assert(1 <= c0.state <= ids.len()) by {
        assert(spec_tm_verdict(states, ids, c0, n) is Some);
    }
    lemma_ids_len(p, ids);
    assert(init_id <= i64::MAX) by {
        lemma_initial_id_is_declared(states, states.len() as int);
        lemma_declared_id_is_small(p, ids, init_id);
    }

    // Chunk the program: prelude, main loop, postlude.
    let prelude = seq![
        SpecInstr::ToggleErrors,
        SpecInstr::ReadToActive,
        SpecInstr::While(ingest_body()),
        SpecInstr::PushZero,
    ] + incr_n(init_id as nat);
    let body = spec_states_code(states, ids) + seq![SpecInstr::PopToActive];
    let tail = seq![
        SpecInstr::While(body),
        SpecInstr::If(spec_print_bytes(accept_bytes())),
        SpecInstr::IncrActive,
        SpecInstr::If(spec_print_bytes(reject_bytes())),
    ];
    assert(spec_compile_program(p) =~= prelude + tail);

    // The prelude reaches the encoded initial configuration.
    let f0: nat = (input.len() + 1) as nat;
    lemma_prelude_ingests_input(input, init_id, f0);
    let enc = MState {
        a: init_id as int,
        i: 0,
        stack: bytes_as_ints(input) + seq![0],
        errors: false,
        input: input,
        pos: input.len() as int,
        output: Seq::empty(),
    };
    assert(spec_run_seq(init_state(input), prelude, f0) == Outcome::Done(enc));
    assert(spec_encodes(enc, c0)) by {
        if input.len() > 0 {
            assert(bytes_as_ints(input) + seq![0int] =~= bytes_as_ints(input.drop_last()).push(
                input.last() as int,
            ).push(0));
        } else {
            assert(bytes_as_ints(input) + seq![0int] =~= seq![0int]);
        }
    }

    // The main loop halts on the verdict.
    lemma_main_loop_halts(states, ids, enc, c0, n, v);
    let (f1, stv) = choose|f1: nat, stv: MState|
        {
            &&& spec_run_instr(enc, SpecInstr::While(body), f1) == Outcome::Done(stv)
            &&& stv.a == (if v {
                0int
            } else {
                -1int
            })
            &&& stv.i == 0
            &&& stv.output == enc.output
            &&& stv.errors == enc.errors
            &&& stv.input == enc.input
            &&& stv.pos == enc.pos
        };

    // The postlude prints the verdict.
    let fm: nat = if f0 >= f1 {
        f0
    } else {
        f1
    };
    lemma_fuel_mono_seq(init_state(input), prelude, f0, fm);
    lemma_fuel_mono_instr(enc, SpecInstr::While(body), f1, fm);
    lemma_run_seq_append(init_state(input), prelude, tail, fm);
    lemma_run_seq_step(enc, tail, fm, stv);
    lemma_postlude_prints_verdict(stv, fm);
    let st2 = MState {
        a: stv.a + 1,
        output: stv.output + (if stv.a == 0 {
            accept_bytes()
        } else {
            reject_bytes()
        }),
        ..stv
    };
    assert(tail.drop_first() =~= seq![
        SpecInstr::If(spec_print_bytes(accept_bytes())),
        SpecInstr::IncrActive,
        SpecInstr::If(spec_print_bytes(reject_bytes())),
    ]);
    assert(spec_run_seq(stv, tail.drop_first(), fm) == Outcome::Done(st2));
    assert(spec_run_seq(init_state(input), spec_compile_program(p), fm) == Outcome::Done(st2));
    assert(st2.output =~= (if v {
        accept_bytes()
    } else {
        reject_bytes()
    }));
}

/// Under the same hypotheses, every completed run prints the machine's
/// verdict. Whatever step budget drives the compiled program to
/// completion — in particular the budget the interpreter itself uses —
/// the output cannot be anything but the right one of `ACCEPT` and
/// `REJECT`. So when `TuringMachine::run_with_output` returns `Ok`, the
/// bytes it hands back are the machine's verdict.
pub proof fn lemma_any_completed_run_prints_verdict(
    p: Program,
    input: Seq<u8>,
    n: nat,
    v: bool,
    f: nat,
    st2: MState,
)
    requires
        crate::validate::spec_wf(p),
        p.states@.len() < i64::MAX as int,
        forall|k: int|
            0 <= k < spec_sorted_ids(p.states@).len() ==> #[trigger] spec_sorted_ids(p.states@)[k]
                == k + 1,
        forall|k: int| 0 <= k < input.len() ==> 1 <= #[trigger] input[k] < 128,
        spec_tm_verdict(
            p.states@,
            spec_sorted_ids(p.states@),
            spec_initial_config(p, input),
            n,
        ) == Some(v),
        spec_run_fits(p.states@, spec_sorted_ids(p.states@), spec_initial_config(p, input), n),
        spec_run_seq(init_state(input), spec_compile_program(p), f) == Outcome::Done(st2),
    ensures
        st2.output == (if v {
            accept_bytes()
        } else {
            reject_bytes()
        }),
{
    lemma_compiled_program_prints_verdict(p, input, n, v);
    let (f0, st0) = choose|f0: nat, st0: MState|
        spec_run_seq(init_state(input), spec_compile_program(p), f0) == Outcome::Done(st0)
            && st0.output == (if v {
            accept_bytes()
        } else {
            reject_bytes()
        });
    crate::semantics::lemma_run_deterministic(
        init_state(input),
        spec_compile_program(p),
        f,
        f0,
        st2,
        st0,
    );
}

/// The first initial id is a declared state id.
proof fn lemma_initial_id_is_declared(states: Seq<State>, upto: int)
    requires
        0 <= upto <= states.len(),
        crate::validate::spec_initial_ids_upto(states, upto).len() >= 1,
    ensures
        crate::validate::spec_has_state(
            states,
            crate::validate::spec_initial_ids_upto(states, upto)[0],
        ),
    decreases upto,
{
    if upto > 0 {
        if states[upto - 1].initial {
            if crate::validate::spec_initial_ids_upto(states, upto - 1).len() >= 1 {
                lemma_initial_id_is_declared(states, upto - 1);
            } else {
                assert(crate::validate::spec_initial_ids_upto(states, upto)[0] == states[upto
                    - 1].id);
            }
        } else {
            lemma_initial_id_is_declared(states, upto - 1);
        }
    }
}

/// The dispatch ordinals are as many as the states.
proof fn lemma_ids_len(p: Program, ids: Seq<StateId>)
    requires
        ids == spec_sorted_ids(p.states@),
    ensures
        ids.len() == p.states@.len(),
{
    broadcast use vstd::seq_lib::group_to_multiset_ensures;

    let sids = crate::validate::spec_state_ids(p.states@);
    sids.lemma_sort_by_ensures(crate::compile::id_le());
    assert(sids.to_multiset() == ids.to_multiset());
    assert(ids.len() == ids.to_multiset().len());
    assert(sids.len() == sids.to_multiset().len());
}

/// Every dispatch ordinal names a real state.
proof fn lemma_state_for_is_a_state(p: Program, ids: Seq<StateId>, j: int)
    requires
        crate::validate::spec_wf(p),
        ids == spec_sorted_ids(p.states@),
        0 <= j < ids.len(),
    ensures
        exists|w: int|
            0 <= w < p.states@.len() && #[trigger] p.states@[w] == spec_state_for(
                p.states@,
                ids[j],
            ),
{
    let states = p.states@;
    crate::compile::lemma_state_blocks_ascending(p);
    broadcast use vstd::seq_lib::group_to_multiset_ensures;

    assert(ids.to_multiset().contains(ids[j]));
    assert(crate::validate::spec_state_ids(states).contains(ids[j]));
    let w = choose|w: int|
        0 <= w < crate::validate::spec_state_ids(states).len() && crate::validate::spec_state_ids(
            states,
        )[w] == ids[j];
    assert(states[w].id == ids[j]);
    let c = choose|c: int| 0 <= c < states.len() && (#[trigger] states[c]).id == ids[j];
    assert(spec_state_for(states, ids[j]) == states[c]);
}

/// Every id a transition may name lies within the dispatch range, so it
/// fits the machine word.
proof fn lemma_declared_id_is_small(p: Program, ids: Seq<StateId>, id: StateId)
    requires
        crate::validate::spec_wf(p),
        p.states@.len() < i64::MAX as int,
        ids == spec_sorted_ids(p.states@),
        forall|k: int| 0 <= k < ids.len() ==> #[trigger] ids[k] == k + 1,
        crate::validate::spec_has_state(p.states@, id),
    ensures
        1 <= id <= ids.len(),
        id <= i64::MAX,
{
    let states = p.states@;
    crate::compile::lemma_state_blocks_ascending(p);
    broadcast use vstd::seq_lib::group_to_multiset_ensures;

    let w = choose|w: int| 0 <= w < states.len() && (#[trigger] states[w]).id == id;
    assert(crate::validate::spec_state_ids(states)[w] == id);
    assert(crate::validate::spec_state_ids(states).contains(id));
    assert(crate::validate::spec_state_ids(states).to_multiset().contains(id));
    assert(ids.to_multiset().contains(id));
    assert(ids.contains(id));
    let k = choose|k: int| 0 <= k < ids.len() && ids[k] == id;
    assert(id == k + 1);
    lemma_ids_len(p, ids);
}

} // verus!
