//! The lowerer: compiles a validated Turing machine description into a
//! substrate program. The emitted program keeps the whole tape in the
//! substrate state — the right half (head first) on the stack, the left
//! half packed into one integer in base `ALPHABET_SIZE` — and dispatches
//! on states and characters by counting, since the substrate has no
//! arithmetic beyond increment and decrement and no direct equality test.
//!
//! Every `compile` implementation returns a program whose mathematical
//! value equals the corresponding `spec_compile_*` function, so what the
//! emitted code looks like is pinned down exactly.

use vstd::prelude::*;
use vstd::relations::{sorted_by, total_ordering};
use vstd::seq_lib::lemma_sorted_unique;
use itertools::Itertools;
use crate::ast::{Char, Program, State, StateId, TapeInstruction, Transition};
use crate::semantics::{
    deep_instr, deep_instrs, instr_depth, lemma_deep_instrs_concat, lemma_deep_instrs_push,
    lemma_seq_depth_concat, seq_depth, SpecInstr,
};
use crate::stack::SmInstruction;
use crate::validate::{spec_state_ids, spec_wf, Valid};

verus! {

broadcast use lemma_deep_instrs_push, lemma_deep_instrs_concat;

/// `n` copies of `IncrActive`.
pub open spec fn incr_n(n: nat) -> Seq<SpecInstr> {
    Seq::new(n, |k: int| SpecInstr::IncrActive)
}

/// `n` copies of `DecrActive`.
pub open spec fn decr_n(n: nat) -> Seq<SpecInstr> {
    Seq::new(n, |k: int| SpecInstr::DecrActive)
}

/// The loop body that moves the active variable into the inactive one by
/// repeated decrement and increment: it adds `A` to `I` and zeroes `A`.
pub open spec fn transfer_body() -> Seq<SpecInstr> {
    seq![SpecInstr::DecrActive, SpecInstr::Swap, SpecInstr::IncrActive, SpecInstr::Swap]
}

/// The lowering of one tape instruction. On entry the inactive variable
/// holds the packed left tape `LT` and the stack holds the head character
/// and the right tape; on exit the inactive variable holds the updated
/// `LT` and the stack holds the updated head and right tape.
pub open spec fn spec_compile_tape(t: TapeInstruction) -> Seq<SpecInstr> {
    match t {
        // New head is `LT % SIZE`, new left tape is `LT / SIZE`, computed
        // by repeated subtraction of SIZE with a counter in `I`. `A` is
        // biased up by one first so the loop always overshoots, then SIZE
        // is added back and the bias and the counter are each decremented
        // once, which makes the `LT % SIZE == 0` boundary come out right.
        TapeInstruction::Left => seq![
            SpecInstr::PushZero,
            SpecInstr::PopToActive,
            SpecInstr::Swap,
            SpecInstr::IncrActive,
            SpecInstr::While(decr_n(128) + seq![SpecInstr::Swap, SpecInstr::IncrActive, SpecInstr::Swap]),
        ] + incr_n(128) + seq![
            SpecInstr::DecrActive,
            SpecInstr::PushActive,
            SpecInstr::Swap,
            SpecInstr::DecrActive,
            SpecInstr::Swap,
        ],
        // New left tape is `LT * SIZE + H`: a saved copy of `LT` is added
        // into `I` SIZE - 1 times, then the old head is added; the new
        // head is whatever ends up on top of the stack (blank if empty).
        TapeInstruction::Right => seq![SpecInstr::Swap, SpecInstr::PushActive, SpecInstr::SaveActive]
            + right_adds(127) + seq![
            SpecInstr::PopToActive,
            SpecInstr::PopToActive,
            SpecInstr::While(transfer_body()),
        ],
        // Replace the head: pop it, count `A` up to the new character and
        // push that.
        TapeInstruction::Write(c) => seq![
            SpecInstr::PopToActive,
            SpecInstr::PushZero,
            SpecInstr::PopToActive,
        ] + incr_n(c as nat) + seq![SpecInstr::PushActive],
    }
}

/// `n` rounds of adding the saved copy of the left tape into `I`: run the
/// transfer loop, then reload the copy from the stack and push it back.
pub open spec fn right_adds(n: nat) -> Seq<SpecInstr>
    decreases n,
{
    if n == 0 {
        Seq::empty()
    } else {
        right_adds((n - 1) as nat) + seq![
            SpecInstr::While(transfer_body()),
            SpecInstr::PopToActive,
            SpecInstr::PushActive,
        ]
    }
}

/// The lowering of one transition: update the tape, restore the packed
/// stack layout, push the next state id, and leave `A = 0`, `I = -1` as
/// the witness that a transition fired.
pub open spec fn spec_compile_transition(t: Transition) -> Seq<SpecInstr> {
    seq![SpecInstr::PopToActive, SpecInstr::Swap, SpecInstr::PushActive] + spec_compile_tape(
        t.tape_instruction,
    ) + seq![
        SpecInstr::Swap,
        SpecInstr::PushActive,
        SpecInstr::PushZero,
        SpecInstr::PopToActive,
        SpecInstr::SaveActive,
    ] + incr_n(t.next_state as nat) + seq![
        SpecInstr::PushActive,
        SpecInstr::PushZero,
        SpecInstr::PopToActive,
        SpecInstr::DecrActive,
        SpecInstr::Swap,
    ]
}

/// The transition that fires on character `c`: the last one in the list
/// whose `match_char` equals `c`, if any.
pub open spec fn spec_find_transition(trs: Seq<Transition>, c: Char) -> Option<Transition>
    decreases trs.len(),
{
    if trs.len() == 0 {
        None
    } else if trs.last().match_char == c {
        Some(trs.last())
    } else {
        spec_find_transition(trs.drop_last(), c)
    }
}

/// The per-character sweep from character `c` upward: for each character,
/// a guarded transition body if the state has a transition on it, then an
/// increment to move the counter to the next character.
pub open spec fn spec_sweep(trs: Seq<Transition>, c: int) -> Seq<SpecInstr>
    decreases 128 - c,
{
    if c < 0 || c >= 128 {
        Seq::empty()
    } else {
        (match spec_find_transition(trs, c as Char) {
            Some(t) => seq![SpecInstr::If(spec_compile_transition(t))],
            None => Seq::<SpecInstr>::empty(),
        }) + seq![SpecInstr::IncrActive] + spec_sweep(trs, c + 1)
    }
}

/// The HALT path of one state: runs only when no transition matched the
/// head character; it rebuilds the stack layout and pushes the verdict
/// sentinel (`0` to accept, `-1` to reject) as the next state.
pub open spec fn spec_halt_body(accepting: bool) -> Seq<SpecInstr> {
    seq![
        SpecInstr::DecrActive,
        SpecInstr::Swap,
        SpecInstr::PopToActive,
        SpecInstr::Swap,
        SpecInstr::PushActive,
        SpecInstr::Swap,
        SpecInstr::PushActive,
        SpecInstr::PushZero,
        SpecInstr::PopToActive,
        SpecInstr::SaveActive,
    ] + (if accepting {
        seq![SpecInstr::PushZero]
    } else {
        seq![SpecInstr::DecrActive, SpecInstr::PushActive, SpecInstr::IncrActive]
    })
}

/// The body of one state's guarded block: unpack the head character, run
/// the per-character sweep, then the HALT check for the fall-through
/// case.
pub open spec fn spec_state_body(s: State) -> Seq<SpecInstr> {
    seq![
        SpecInstr::PopToActive,
        SpecInstr::Swap,
        SpecInstr::PopToActive,
        SpecInstr::Swap,
        SpecInstr::PushActive,
        SpecInstr::PushZero,
        SpecInstr::PopToActive,
    ] + spec_sweep(s.transitions@, 0) + seq![
        SpecInstr::Swap,
        SpecInstr::IncrActive,
        SpecInstr::While(spec_halt_body(s.accepting)),
        SpecInstr::SaveActive,
    ]
}

/// The lowering of one state: count the state counter down by one, and
/// run the state's body exactly when it reaches zero.
pub open spec fn spec_compile_state(s: State) -> Seq<SpecInstr> {
    seq![SpecInstr::DecrActive, SpecInstr::If(spec_state_body(s))]
}

/// Lowering to substrate code, for each part of a machine description.
pub trait Compile {
    /// Emits the substrate instructions that process this value.
    fn compile(&self) -> Vec<SmInstruction>;
}

/// Appends `n` copies of `IncrActive`.
#[verifier::loop_isolation(false)]
fn push_incrs(out: &mut Vec<SmInstruction>, n: usize)
    ensures
        deep_instrs(final(out)@) == deep_instrs(old(out)@) + incr_n(n as nat),
{
    proof {
        assert(deep_instrs(out@) =~= deep_instrs(out@) + incr_n(0));
    }
    let mut k: usize = 0;
    while k < n
        invariant
            k <= n,
            deep_instrs(out@) == deep_instrs(old(out)@) + incr_n(k as nat),
        decreases n - k,
    {
        let ghost prev = out@;
        out.push(SmInstruction::IncrActive);
        k = k + 1;
        proof {
            lemma_deep_instrs_push(prev, SmInstruction::IncrActive);
            assert(deep_instrs(out@) =~= deep_instrs(old(out)@) + incr_n(k as nat));
        }
    }
}

/// Appends `n` copies of `DecrActive`.
#[verifier::loop_isolation(false)]
fn push_decrs(out: &mut Vec<SmInstruction>, n: usize)
    ensures
        deep_instrs(final(out)@) == deep_instrs(old(out)@) + decr_n(n as nat),
{
    proof {
        assert(deep_instrs(out@) =~= deep_instrs(out@) + decr_n(0));
    }
    let mut k: usize = 0;
    while k < n
        invariant
            k <= n,
            deep_instrs(out@) == deep_instrs(old(out)@) + decr_n(k as nat),
        decreases n - k,
    {
        let ghost prev = out@;
        out.push(SmInstruction::DecrActive);
        k = k + 1;
        proof {
            lemma_deep_instrs_push(prev, SmInstruction::DecrActive);
            assert(deep_instrs(out@) =~= deep_instrs(old(out)@) + decr_n(k as nat));
        }
    }
}

/// Builds one transfer loop body (`I += A; A = 0` when run under a
/// `While`).
fn transfer_vec() -> (r: Vec<SmInstruction>)
    ensures
        deep_instrs(r@) == transfer_body(),
{
    let mut v: Vec<SmInstruction> = Vec::new();
    v.push(SmInstruction::DecrActive);
    v.push(SmInstruction::Swap);
    v.push(SmInstruction::IncrActive);
    v.push(SmInstruction::Swap);
    proof {
        assert(deep_instrs(v@) =~= transfer_body());
    }
    v
}

impl Compile for TapeInstruction {
    /// Emits the tape update for one move or write.
    fn compile(&self) -> (r: Vec<SmInstruction>)
        ensures
            deep_instrs(r@) == spec_compile_tape(*self),
    {
        let mut out: Vec<SmInstruction> = Vec::new();
        match self {
            TapeInstruction::Left => {
                let mut lbody: Vec<SmInstruction> = Vec::new();
                push_decrs(&mut lbody, 128);
                lbody.push(SmInstruction::Swap);
                lbody.push(SmInstruction::IncrActive);
                lbody.push(SmInstruction::Swap);
                proof {
                    assert(deep_instrs(lbody@) =~= decr_n(128) + seq![
                        SpecInstr::Swap,
                        SpecInstr::IncrActive,
                        SpecInstr::Swap,
                    ]);
                }
                out.push(SmInstruction::PushZero);
                out.push(SmInstruction::PopToActive);
                out.push(SmInstruction::Swap);
                out.push(SmInstruction::IncrActive);
                out.push(SmInstruction::While(lbody));
                let ghost head = deep_instrs(out@);
                push_incrs(&mut out, 128);
                out.push(SmInstruction::DecrActive);
                out.push(SmInstruction::PushActive);
                out.push(SmInstruction::Swap);
                out.push(SmInstruction::DecrActive);
                out.push(SmInstruction::Swap);
                proof {
                    assert(deep_instrs(out@) =~= spec_compile_tape(*self));
                }
            },
            TapeInstruction::Right => {
                out.push(SmInstruction::Swap);
                out.push(SmInstruction::PushActive);
                out.push(SmInstruction::SaveActive);
                proof {
                    assert(deep_instrs(out@) =~= seq![
                        SpecInstr::Swap,
                        SpecInstr::PushActive,
                        SpecInstr::SaveActive,
                    ] + right_adds(0));
                }
                let mut k: usize = 0;
                #[verifier::loop_isolation(false)]
                while k < 127
                    invariant
                        k <= 127,
                        deep_instrs(out@) == seq![
                            SpecInstr::Swap,
                            SpecInstr::PushActive,
                            SpecInstr::SaveActive,
                        ] + right_adds(k as nat),
                    decreases 127 - k,
                {
                    let tv = transfer_vec();
                    out.push(SmInstruction::While(tv));
                    out.push(SmInstruction::PopToActive);
                    out.push(SmInstruction::PushActive);
                    k = k + 1;
                    proof {
                        assert(deep_instrs(out@) =~= seq![
                            SpecInstr::Swap,
                            SpecInstr::PushActive,
                            SpecInstr::SaveActive,
                        ] + right_adds(k as nat));
                    }
                }
                out.push(SmInstruction::PopToActive);
                out.push(SmInstruction::PopToActive);
                let tv = transfer_vec();
                out.push(SmInstruction::While(tv));
                proof {
                    assert(deep_instrs(out@) =~= spec_compile_tape(*self));
                }
            },
            TapeInstruction::Write(c) => {
                out.push(SmInstruction::PopToActive);
                out.push(SmInstruction::PushZero);
                out.push(SmInstruction::PopToActive);
                let ghost head = deep_instrs(out@);
                push_incrs(&mut out, *c as usize);
                out.push(SmInstruction::PushActive);
                proof {
                    assert(deep_instrs(out@) =~= spec_compile_tape(*self));
                }
            },
        }
        out
    }
}

impl Compile for Transition {
    /// Emits the code run when this transition's character matches the
    /// head: the tape update, the repacking, and the next-state push.
    fn compile(&self) -> (r: Vec<SmInstruction>)
        ensures
            deep_instrs(r@) == spec_compile_transition(*self),
    {
        let mut out: Vec<SmInstruction> = Vec::new();
        out.push(SmInstruction::PopToActive);
        out.push(SmInstruction::Swap);
        out.push(SmInstruction::PushActive);
        let mut tape = self.tape_instruction.compile();
        let ghost pre = out@;
        let ghost tape_view = tape@;
        out.append(&mut tape);
        proof {
            lemma_deep_instrs_concat(pre, tape_view);
        }
        out.push(SmInstruction::Swap);
        out.push(SmInstruction::PushActive);
        out.push(SmInstruction::PushZero);
        out.push(SmInstruction::PopToActive);
        out.push(SmInstruction::SaveActive);
        proof {
            assert(deep_instrs(out@) =~= seq![
                SpecInstr::PopToActive,
                SpecInstr::Swap,
                SpecInstr::PushActive,
            ] + spec_compile_tape(self.tape_instruction) + seq![
                SpecInstr::Swap,
                SpecInstr::PushActive,
                SpecInstr::PushZero,
                SpecInstr::PopToActive,
                SpecInstr::SaveActive,
            ]);
        }
        let ghost mid = deep_instrs(out@);
        push_incrs(&mut out, self.next_state);
        out.push(SmInstruction::PushActive);
        out.push(SmInstruction::PushZero);
        out.push(SmInstruction::PopToActive);
        out.push(SmInstruction::DecrActive);
        out.push(SmInstruction::Swap);
        proof {
            assert(deep_instrs(out@) =~= spec_compile_transition(*self));
        }
        out
    }
}

/// Finds the transition that fires on character `c`: the index of the
/// last transition matching `c`, if any.
#[verifier::loop_isolation(false)]
fn find_last_transition(transitions: &Vec<Transition>, c: Char) -> (r: Option<usize>)
    ensures
        match r {
            Some(idx) => idx < transitions@.len() && spec_find_transition(transitions@, c)
                == Some(transitions@[idx as int]),
            None => spec_find_transition(transitions@, c) is None,
        },
{
    proof {
        assert(transitions@.take(transitions@.len() as int) =~= transitions@);
    }
    let mut k: usize = transitions.len();
    while k > 0
        invariant
            k <= transitions@.len(),
            spec_find_transition(transitions@, c) == spec_find_transition(
                transitions@.take(k as int),
                c,
            ),
        decreases k,
    {
        if transitions[k - 1].match_char == c {
            proof {
                assert(transitions@.take(k as int).last() == transitions@[k as int - 1]);
            }
            return Some(k - 1);
        }
        k = k - 1;
        proof {
            assert(transitions@.take(k as int + 1).drop_last() =~= transitions@.take(k as int));
        }
    }
    None
}

/// Emits the per-character sweep over all 128 characters for one state's
/// transitions.
#[verifier::loop_isolation(false)]
fn compile_sweep(transitions: &Vec<Transition>) -> (r: Vec<SmInstruction>)
    ensures
        deep_instrs(r@) == spec_sweep(transitions@, 0),
{
    let mut out: Vec<SmInstruction> = Vec::new();
    let mut c: usize = 0;
    proof {
        assert(deep_instrs(out@) + spec_sweep(transitions@, 0) =~= spec_sweep(transitions@, 0));
    }
    while c < 128
        invariant
            c <= 128,
            spec_sweep(transitions@, 0) == deep_instrs(out@) + spec_sweep(transitions@, c as int),
        decreases 128 - c,
    {
        let ghost pre = deep_instrs(out@);
        match find_last_transition(transitions, c as Char) {
            Some(idx) => {
                let body = transitions[idx].compile();
                out.push(SmInstruction::If(body));
            },
            None => (),
        }
        out.push(SmInstruction::IncrActive);
        c = c + 1;
        proof {
            let cc = c as int - 1;
            assert(spec_sweep(transitions@, cc) == (match spec_find_transition(
                transitions@,
                cc as Char,
            ) {
                Some(t) => seq![SpecInstr::If(spec_compile_transition(t))],
                None => Seq::<SpecInstr>::empty(),
            }) + seq![SpecInstr::IncrActive] + spec_sweep(transitions@, cc + 1));
            assert(deep_instrs(out@) =~= pre + ((match spec_find_transition(
                transitions@,
                cc as Char,
            ) {
                Some(t) => seq![SpecInstr::If(spec_compile_transition(t))],
                None => Seq::<SpecInstr>::empty(),
            }) + seq![SpecInstr::IncrActive]));
            assert(spec_sweep(transitions@, 0) =~= deep_instrs(out@) + spec_sweep(
                transitions@,
                c as int,
            ));
        }
    }
    proof {
        assert(spec_sweep(transitions@, 128) =~= Seq::<SpecInstr>::empty());
        assert(deep_instrs(out@) =~= spec_sweep(transitions@, 0));
    }
    out
}

impl Compile for State {
    /// Emits this state's block: the counter decrement and the guarded
    /// body with the sweep and the HALT check.
    fn compile(&self) -> (r: Vec<SmInstruction>)
        ensures
            deep_instrs(r@) == spec_compile_state(*self),
    {
        // The HALT path for the fall-through case.
        let mut halt: Vec<SmInstruction> = Vec::new();
        halt.push(SmInstruction::DecrActive);
        halt.push(SmInstruction::Swap);
        halt.push(SmInstruction::PopToActive);
        halt.push(SmInstruction::Swap);
        halt.push(SmInstruction::PushActive);
        halt.push(SmInstruction::Swap);
        halt.push(SmInstruction::PushActive);
        halt.push(SmInstruction::PushZero);
        halt.push(SmInstruction::PopToActive);
        halt.push(SmInstruction::SaveActive);
        if self.accepting {
            halt.push(SmInstruction::PushZero);
        } else {
            halt.push(SmInstruction::DecrActive);
            halt.push(SmInstruction::PushActive);
            halt.push(SmInstruction::IncrActive);
        }
        proof {
            assert(deep_instrs(halt@) =~= spec_halt_body(self.accepting));
        }

        // The state body: unpack the head, sweep, HALT check.
        let mut body: Vec<SmInstruction> = Vec::new();
        body.push(SmInstruction::PopToActive);
        body.push(SmInstruction::Swap);
        body.push(SmInstruction::PopToActive);
        body.push(SmInstruction::Swap);
        body.push(SmInstruction::PushActive);
        body.push(SmInstruction::PushZero);
        body.push(SmInstruction::PopToActive);
        let mut sweep = compile_sweep(&self.transitions);
        let ghost pre = body@;
        let ghost sweep_view = sweep@;
        body.append(&mut sweep);
        proof {
            lemma_deep_instrs_concat(pre, sweep_view);
        }
        body.push(SmInstruction::Swap);
        body.push(SmInstruction::IncrActive);
        body.push(SmInstruction::While(halt));
        body.push(SmInstruction::SaveActive);
        proof {
            assert(deep_instrs(body@) =~= spec_state_body(*self));
        }

        let mut out: Vec<SmInstruction> = Vec::new();
        out.push(SmInstruction::DecrActive);
        out.push(SmInstruction::If(body));
        proof {
            assert(deep_instrs(out@) =~= spec_compile_state(*self));
        }
        out
    }
}

/// The ordering the state blocks are emitted in.
pub open spec fn id_le() -> spec_fn(StateId, StateId) -> bool {
    |x: StateId, y: StateId| x <= y
}

/// The declared state ids in ascending order: the order of the emitted
/// state blocks.
pub open spec fn spec_sorted_ids(states: Seq<State>) -> Seq<StateId> {
    spec_state_ids(states).sort_by(id_le())
}

/// The state carrying the given id (unambiguous when ids are unique).
pub open spec fn spec_state_for(states: Seq<State>, id: StateId) -> State {
    states[choose|k: int| 0 <= k < states.len() && (#[trigger] states[k]).id == id]
}

/// The concatenated state blocks for the given ids, in the given order.
pub open spec fn spec_states_code(states: Seq<State>, ids: Seq<StateId>) -> Seq<SpecInstr>
    decreases ids.len(),
{
    if ids.len() == 0 {
        Seq::empty()
    } else {
        spec_states_code(states, ids.drop_last()) + spec_compile_state(
            spec_state_for(states, ids.last()),
        )
    }
}

/// The id of the first state marked initial; for a well-formed program,
/// the only one.
pub open spec fn spec_initial_id(states: Seq<State>) -> StateId {
    crate::validate::spec_initial_ids(states)[0]
}

/// The code that prints one string: for each byte, count `A` up from `0`
/// to the byte, print it, and reset `A` to `0`.
pub open spec fn spec_print_bytes(text: Seq<u8>) -> Seq<SpecInstr>
    decreases text.len(),
{
    if text.len() == 0 {
        Seq::empty()
    } else {
        spec_print_bytes(text.drop_last()) + incr_n(text.last() as nat) + seq![
            SpecInstr::PrintActive,
            SpecInstr::PushZero,
            SpecInstr::PopToActive,
        ]
    }
}

/// The bytes of `ACCEPT` followed by a newline.
pub open spec fn accept_bytes() -> Seq<u8> {
    seq![65u8, 67u8, 67u8, 69u8, 80u8, 84u8, 10u8]
}

/// The bytes of `REJECT` followed by a newline.
pub open spec fn reject_bytes() -> Seq<u8> {
    seq![82u8, 69u8, 74u8, 69u8, 67u8, 84u8, 10u8]
}

/// The ingestion loop body: park the byte just read on the stack, reset
/// `A` to `0`, and read the next byte (at end of input `A` stays `0`).
pub open spec fn ingest_body() -> Seq<SpecInstr> {
    seq![SpecInstr::PushActive, SpecInstr::PushZero, SpecInstr::PopToActive, SpecInstr::ReadToActive]
}

/// The whole lowered program: disable errors, read the (pre-reversed)
/// input onto the stack, push the empty left tape, count `A` up to the
/// initial state id, run the main dispatch loop until a verdict sentinel
/// comes out, and print `ACCEPT` or `REJECT`.
pub open spec fn spec_compile_program(p: Program) -> Seq<SpecInstr> {
    let states = p.states@;
    seq![
        SpecInstr::ToggleErrors,
        SpecInstr::ReadToActive,
        SpecInstr::While(ingest_body()),
        SpecInstr::PushZero,
    ] + incr_n(spec_initial_id(states) as nat) + seq![
        SpecInstr::While(
            spec_states_code(states, spec_sorted_ids(states)) + seq![SpecInstr::PopToActive],
        ),
        SpecInstr::If(spec_print_bytes(accept_bytes())),
        SpecInstr::IncrActive,
        SpecInstr::If(spec_print_bytes(reject_bytes())),
    ]
}

/// Relies on itertools' `sorted`: the returned ids are in nondecreasing
/// order and form the same multiset as the input.
#[verifier::external_body]
fn sort_ids(ids: Vec<StateId>) -> (r: Vec<StateId>)
    ensures
        r@.to_multiset() == ids@.to_multiset(),
        forall|j: int, k: int| 0 <= j < k < r@.len() ==> r@[j] <= r@[k],
{
    ids.into_iter().sorted().collect()
}

/// A nondecreasing sequence with the elements of `a` is `a`'s one sorted
/// order.
proof fn lemma_sort_canonical(a: Seq<StateId>, b: Seq<StateId>)
    requires
        b.to_multiset() == a.to_multiset(),
        forall|j: int, k: int| 0 <= j < k < b.len() ==> b[j] <= b[k],
    ensures
        b == a.sort_by(id_le()),
{
    let le = id_le();
    assert(total_ordering(le)) by {
        assert forall|x: StateId| #[trigger] le(x, x) by {}
        assert forall|x: StateId, y: StateId| #[trigger] le(x, y) && #[trigger] le(y, x)
            implies x == y by {}
        assert forall|x: StateId, y: StateId, z: StateId|
            #[trigger] le(x, y) && #[trigger] le(y, z) implies le(x, z) by {}
        assert forall|x: StateId, y: StateId| #[trigger] le(x, y) || #[trigger] le(y, x) by {}
    }
    a.lemma_sort_by_ensures(le);
    assert(sorted_by(b, le)) by {
        assert forall|j: int, k: int| 0 <= j < k < b.len() implies #[trigger] le(b[j], b[k]) by {}
    }
    lemma_sorted_unique(b, a.sort_by(le), le);
    assert(b =~= a.sort_by(le));
}

proof fn lemma_initial_exists(states: Seq<State>, upto: int)
    requires
        0 <= upto <= states.len(),
        crate::validate::spec_initial_ids_upto(states, upto).len() > 0,
    ensures
        exists|k: int| 0 <= k < upto && (#[trigger] states[k]).initial,
    decreases upto,
{
    if upto > 0 {
        if states[upto - 1].initial {
        } else {
            lemma_initial_exists(states, upto - 1);
        }
    }
}

proof fn lemma_first_initial(states: Seq<State>, k: int, upto: int)
    requires
        0 <= k < upto <= states.len(),
        crate::validate::spec_initial_ids_upto(states, k).len() == 0,
        states[k].initial,
    ensures
        crate::validate::spec_initial_ids_upto(states, upto).len() >= 1,
        crate::validate::spec_initial_ids_upto(states, upto)[0] == states[k].id,
    decreases upto,
{
    if upto == k + 1 {
    } else {
        lemma_first_initial(states, k, upto - 1);
    }
}

/// Finds the index of the state carrying `id`.
#[verifier::loop_isolation(false)]
fn find_state_index(states: &Vec<State>, id: StateId) -> (r: usize)
    requires
        crate::validate::spec_has_state(states@, id),
    ensures
        r < states@.len(),
        states@[r as int].id == id,
{
    let mut k: usize = 0;
    while k < states.len()
        invariant
            k <= states@.len(),
            forall|j: int| 0 <= j < k ==> (#[trigger] states@[j]).id != id,
        decreases states@.len() - k,
    {
        if states[k].id == id {
            return k;
        }
        k = k + 1;
    }
    proof {
        assert(false);
    }
    0
}

/// Emits the printing code for one string of bytes.
#[verifier::loop_isolation(false)]
fn compile_print(text: &Vec<u8>) -> (r: Vec<SmInstruction>)
    ensures
        deep_instrs(r@) == spec_print_bytes(text@),
{
    let mut out: Vec<SmInstruction> = Vec::new();
    let mut k: usize = 0;
    proof {
        assert(text@.take(0) =~= Seq::<u8>::empty());
        assert(deep_instrs(out@) =~= spec_print_bytes(text@.take(0)));
    }
    while k < text.len()
        invariant
            k <= text@.len(),
            deep_instrs(out@) == spec_print_bytes(text@.take(k as int)),
        decreases text@.len() - k,
    {
        push_incrs(&mut out, text[k] as usize);
        out.push(SmInstruction::PrintActive);
        out.push(SmInstruction::PushZero);
        out.push(SmInstruction::PopToActive);
        k = k + 1;
        proof {
            let taken = text@.take(k as int);
            assert(taken.drop_last() =~= text@.take(k as int - 1));
            assert(taken.last() == text@[k as int - 1]);
            assert(deep_instrs(out@) =~= spec_print_bytes(taken));
        }
    }
    proof {
        assert(text@.take(text@.len() as int) =~= text@);
    }
    out
}

impl Compile for Valid {
    /// Compiles a validated machine description into the full substrate
    /// program.
    #[verifier::loop_isolation(false)]
    fn compile(&self) -> (r: Vec<SmInstruction>)
        ensures
            deep_instrs(r@) == spec_compile_program(self.spec_program()),
    {
        let p = self.program();
        let states = &p.states;
        let ghost gstates = p.states@;
        let n = states.len();

        // The initial state's id (well-formedness: there is exactly one).
        let mut init_id: StateId = 0;
        let mut found = false;
        let mut j: usize = 0;
        while j < n && !found
            invariant
                j <= gstates.len(),
                n == gstates.len(),
                !found ==> crate::validate::spec_initial_ids_upto(gstates, j as int).len() == 0,
                found ==> init_id == spec_initial_id(gstates),
            decreases gstates.len() - j, (if found { 0int } else { 1int }),
        {
            if states[j].initial {
                init_id = states[j].id;
                found = true;
                proof {
                    lemma_first_initial(gstates, j as int, gstates.len() as int);
                }
            }
            j = j + 1;
        }
        proof {
            if !found {
                lemma_initial_exists(gstates, gstates.len() as int);
                assert(false);
            }
        }

        // The declared ids, sorted ascending: the dispatch order.
        let mut ids: Vec<StateId> = Vec::new();
        let mut j: usize = 0;
        while j < n
            invariant
                j <= gstates.len(),
                n == gstates.len(),
                ids@.len() == j,
                forall|k: int| 0 <= k < j ==> ids@[k] == gstates[k].id,
            decreases gstates.len() - j,
        {
            ids.push(states[j].id);
            j = j + 1;
        }
        proof {
            assert(ids@ =~= spec_state_ids(gstates));
        }
        let sorted = sort_ids(ids);
        proof {
            lemma_sort_canonical(spec_state_ids(gstates), sorted@);
            broadcast use vstd::seq_lib::group_to_multiset_ensures;

        }

        // The main loop body: one block per state, ascending by id, then
        // the pop that loads the next state.
        let mut body: Vec<SmInstruction> = Vec::new();
        let mut k: usize = 0;
        proof {
            assert(sorted@.take(0) =~= Seq::<StateId>::empty());
            assert(deep_instrs(body@) =~= spec_states_code(gstates, sorted@.take(0)));
        }
        while k < sorted.len()
            invariant
                k <= sorted@.len(),
                deep_instrs(body@) == spec_states_code(gstates, sorted@.take(k as int)),
            decreases sorted@.len() - k,
        {
            let id = sorted[k];
            proof {
                assert(sorted@.to_multiset().contains(id));
                assert(spec_state_ids(gstates).contains(id));
                let w = choose|w: int|
                    0 <= w < spec_state_ids(gstates).len() && spec_state_ids(gstates)[w] == id;
                assert(gstates[w].id == id);
                assert(crate::validate::spec_has_state(gstates, id));
            }
            let idx = find_state_index(states, id);
            let mut code = states[idx].compile();
            let ghost pre = body@;
            let ghost code_view = code@;
            body.append(&mut code);
            k = k + 1;
            proof {
                lemma_deep_instrs_concat(pre, code_view);
                let taken = sorted@.take(k as int);
                assert(taken.drop_last() =~= sorted@.take(k as int - 1));
                assert(taken.last() == sorted@[k as int - 1]);
                // Unique ids make the found state the state for this id.
                let c = choose|c: int|
                    0 <= c < gstates.len() && (#[trigger] gstates[c]).id == id;
                assert(gstates[c] == gstates[idx as int]);
                assert(spec_state_for(gstates, id) == gstates[idx as int]);
                assert(deep_instrs(body@) =~= spec_states_code(gstates, taken));
            }
        }
        proof {
            assert(sorted@.take(sorted@.len() as int) =~= sorted@);
        }
        body.push(SmInstruction::PopToActive);

        // Assemble the program.
        let mut ingest: Vec<SmInstruction> = Vec::new();
        ingest.push(SmInstruction::PushActive);
        ingest.push(SmInstruction::PushZero);
        ingest.push(SmInstruction::PopToActive);
        ingest.push(SmInstruction::ReadToActive);
        proof {
            assert(deep_instrs(ingest@) =~= ingest_body());
        }
        let mut out: Vec<SmInstruction> = Vec::new();
        out.push(SmInstruction::ToggleErrors);
        out.push(SmInstruction::ReadToActive);
        out.push(SmInstruction::While(ingest));
        out.push(SmInstruction::PushZero);
        proof {
            assert(deep_instrs(out@) =~= seq![
                SpecInstr::ToggleErrors,
                SpecInstr::ReadToActive,
                SpecInstr::While(ingest_body()),
                SpecInstr::PushZero,
            ]);
        }
        push_incrs(&mut out, init_id);
        out.push(SmInstruction::While(body));
        proof {
            assert(deep_instrs(body@) == spec_states_code(gstates, spec_sorted_ids(gstates)).push(
                SpecInstr::PopToActive,
            ));
            assert(spec_states_code(gstates, spec_sorted_ids(gstates)).push(SpecInstr::PopToActive)
                =~= spec_states_code(gstates, spec_sorted_ids(gstates)) + seq![
                SpecInstr::PopToActive,
            ]);
            assert(deep_instrs(out@) =~= seq![
                SpecInstr::ToggleErrors,
                SpecInstr::ReadToActive,
                SpecInstr::While(ingest_body()),
                SpecInstr::PushZero,
            ] + incr_n(spec_initial_id(gstates) as nat) + seq![
                SpecInstr::While(
                    spec_states_code(gstates, spec_sorted_ids(gstates)) + seq![
                        SpecInstr::PopToActive,
                    ],
                ),
            ]);
        }

        let mut accept_text: Vec<u8> = Vec::new();
        accept_text.push(65);
        accept_text.push(67);
        accept_text.push(67);
        accept_text.push(69);
        accept_text.push(80);
        accept_text.push(84);
        accept_text.push(10);
        proof {
            assert(accept_text@ =~= accept_bytes());
        }
        let accept_code = compile_print(&accept_text);
        out.push(SmInstruction::If(accept_code));
        out.push(SmInstruction::IncrActive);
        let mut reject_text: Vec<u8> = Vec::new();
        reject_text.push(82);
        reject_text.push(69);
        reject_text.push(74);
        reject_text.push(69);
        reject_text.push(67);
        reject_text.push(84);
        reject_text.push(10);
        proof {
            assert(reject_text@ =~= reject_bytes());
        }
        let reject_code = compile_print(&reject_text);
        out.push(SmInstruction::If(reject_code));
        proof {
            assert(deep_instrs(out@) =~= spec_compile_program(self.spec_program()));
        }
        out
    }
}

/// State-block ordering: the state blocks of a lowered well-formed
/// program cover exactly the declared states and appear in strictly
/// ascending order of id.
pub proof fn lemma_state_blocks_ascending(p: Program)
    requires
        spec_wf(p),
    ensures
        spec_sorted_ids(p.states@).to_multiset() == spec_state_ids(p.states@).to_multiset(),
        forall|j: int, k: int|
            0 <= j < k < spec_sorted_ids(p.states@).len() ==> spec_sorted_ids(p.states@)[j]
                < spec_sorted_ids(p.states@)[k],
{
    let ids = spec_state_ids(p.states@);
    let sorted = spec_sorted_ids(p.states@);
    let le = id_le();
    ids.lemma_sort_by_ensures(le);
    assert(ids.no_duplicates()) by {
        assert forall|j: int, k: int| 0 <= j < k < ids.len() implies ids[j] != ids[k] by {
            assert(p.states@[j].id != p.states@[k].id);
        }
    }
    ids.lemma_multiset_has_no_duplicates();
    assert(sorted.no_duplicates()) by {
        assert(forall|x: StateId|
            sorted.to_multiset().contains(x) ==> #[trigger] sorted.to_multiset().count(x) == 1);
        sorted.lemma_multiset_has_no_duplicates_conv();
    }
    assert forall|j: int, k: int| 0 <= j < k < sorted.len() implies sorted[j] < sorted[k] by {
        assert(le(sorted[j], sorted[k]));
    }
}

proof fn lemma_seq_depth_le(s: Seq<SpecInstr>, d: nat)
    requires
        forall|i: int| 0 <= i < s.len() ==> instr_depth(#[trigger] s[i]) <= d,
    ensures
        seq_depth(s) <= d,
    decreases s.len(),
{
    if s.len() > 0 {
        assert(forall|i: int|
            0 <= i < s.drop_first().len() ==> instr_depth(#[trigger] s.drop_first()[i]) <= d);
        lemma_seq_depth_le(s.drop_first(), d);
    }
}

proof fn lemma_incr_n_depth(n: nat)
    ensures
        seq_depth(incr_n(n)) <= 1,
{
    lemma_seq_depth_le(incr_n(n), 1);
}

proof fn lemma_tape_depth(t: TapeInstruction)
    ensures
        seq_depth(spec_compile_tape(t)) <= 2,
{
    lemma_seq_depth_le(transfer_body(), 1);
    match t {
        TapeInstruction::Left => {
            let inner = decr_n(128) + seq![SpecInstr::Swap, SpecInstr::IncrActive, SpecInstr::Swap];
            lemma_seq_depth_le(inner, 1);
            let head = seq![
                SpecInstr::PushZero,
                SpecInstr::PopToActive,
                SpecInstr::Swap,
                SpecInstr::IncrActive,
                SpecInstr::While(inner),
            ];
            lemma_seq_depth_le(head, 2);
            let tail = seq![
                SpecInstr::DecrActive,
                SpecInstr::PushActive,
                SpecInstr::Swap,
                SpecInstr::DecrActive,
                SpecInstr::Swap,
            ];
            lemma_seq_depth_le(tail, 2);
            lemma_incr_n_depth(128);
            lemma_seq_depth_concat(head, incr_n(128));
            lemma_seq_depth_concat(head + incr_n(128), tail);
        },
        TapeInstruction::Right => {
            let head = seq![SpecInstr::Swap, SpecInstr::PushActive, SpecInstr::SaveActive];
            lemma_seq_depth_le(head, 2);
            lemma_right_adds_depth(127);
            let tail = seq![
                SpecInstr::PopToActive,
                SpecInstr::PopToActive,
                SpecInstr::While(transfer_body()),
            ];
            lemma_seq_depth_le(tail, 2);
            lemma_seq_depth_concat(head, right_adds(127));
            lemma_seq_depth_concat(head + right_adds(127), tail);
        },
        TapeInstruction::Write(c) => {
            let head = seq![SpecInstr::PopToActive, SpecInstr::PushZero, SpecInstr::PopToActive];
            lemma_seq_depth_le(head, 2);
            lemma_incr_n_depth(c as nat);
            lemma_seq_depth_le(seq![SpecInstr::PushActive], 2);
            lemma_seq_depth_concat(head, incr_n(c as nat));
            lemma_seq_depth_concat(head + incr_n(c as nat), seq![SpecInstr::PushActive]);
        },
    }
}

proof fn lemma_right_adds_depth(n: nat)
    ensures
        seq_depth(right_adds(n)) <= 2,
    decreases n,
{
    if n == 0 {
    } else {
        lemma_right_adds_depth((n - 1) as nat);
        lemma_seq_depth_le(transfer_body(), 1);
        let chunk = seq![
            SpecInstr::While(transfer_body()),
            SpecInstr::PopToActive,
            SpecInstr::PushActive,
        ];
        lemma_seq_depth_le(chunk, 2);
        lemma_seq_depth_concat(right_adds((n - 1) as nat), chunk);
    }
}

proof fn lemma_transition_depth(t: Transition)
    ensures
        seq_depth(spec_compile_transition(t)) <= 2,
{
    lemma_tape_depth(t.tape_instruction);
    let a = seq![SpecInstr::PopToActive, SpecInstr::Swap, SpecInstr::PushActive];
    let b = spec_compile_tape(t.tape_instruction);
    let c = seq![
        SpecInstr::Swap,
        SpecInstr::PushActive,
        SpecInstr::PushZero,
        SpecInstr::PopToActive,
        SpecInstr::SaveActive,
    ];
    let d = incr_n(t.next_state as nat);
    let e = seq![
        SpecInstr::PushActive,
        SpecInstr::PushZero,
        SpecInstr::PopToActive,
        SpecInstr::DecrActive,
        SpecInstr::Swap,
    ];
    lemma_seq_depth_le(a, 2);
    lemma_seq_depth_le(c, 2);
    lemma_incr_n_depth(t.next_state as nat);
    lemma_seq_depth_le(e, 2);
    lemma_seq_depth_concat(a, b);
    lemma_seq_depth_concat(a + b, c);
    lemma_seq_depth_concat(a + b + c, d);
    lemma_seq_depth_concat(a + b + c + d, e);
}

proof fn lemma_sweep_depth(trs: Seq<Transition>, c: int)
    ensures
        seq_depth(spec_sweep(trs, c)) <= 3,
    decreases 128 - c,
{
    if c < 0 || c >= 128 {
    } else {
        lemma_sweep_depth(trs, c + 1);
        let guard = match spec_find_transition(trs, c as Char) {
            Some(t) => seq![SpecInstr::If(spec_compile_transition(t))],
            None => Seq::<SpecInstr>::empty(),
        };
        match spec_find_transition(trs, c as Char) {
            Some(t) => {
                lemma_transition_depth(t);
                lemma_seq_depth_le(guard, 3);
            },
            None => {
                lemma_seq_depth_le(guard, 3);
            },
        }
        lemma_seq_depth_le(seq![SpecInstr::IncrActive], 3);
        lemma_seq_depth_concat(guard, seq![SpecInstr::IncrActive]);
        lemma_seq_depth_concat(guard + seq![SpecInstr::IncrActive], spec_sweep(trs, c + 1));
    }
}

proof fn lemma_state_depth(s: State)
    ensures
        seq_depth(spec_compile_state(s)) <= 4,
{
    let halt = spec_halt_body(s.accepting);
    assert(seq_depth(halt) <= 1) by {
        let a = seq![
            SpecInstr::DecrActive,
            SpecInstr::Swap,
            SpecInstr::PopToActive,
            SpecInstr::Swap,
            SpecInstr::PushActive,
            SpecInstr::Swap,
            SpecInstr::PushActive,
            SpecInstr::PushZero,
            SpecInstr::PopToActive,
            SpecInstr::SaveActive,
        ];
        let b = if s.accepting {
            seq![SpecInstr::PushZero]
        } else {
            seq![SpecInstr::DecrActive, SpecInstr::PushActive, SpecInstr::IncrActive]
        };
        lemma_seq_depth_le(a, 1);
        lemma_seq_depth_le(b, 1);
        lemma_seq_depth_concat(a, b);
    }
    let body = spec_state_body(s);
    assert(seq_depth(body) <= 3) by {
        let a = seq![
            SpecInstr::PopToActive,
            SpecInstr::Swap,
            SpecInstr::PopToActive,
            SpecInstr::Swap,
            SpecInstr::PushActive,
            SpecInstr::PushZero,
            SpecInstr::PopToActive,
        ];
        let c = seq![
            SpecInstr::Swap,
            SpecInstr::IncrActive,
            SpecInstr::While(spec_halt_body(s.accepting)),
            SpecInstr::SaveActive,
        ];
        lemma_seq_depth_le(a, 3);
        lemma_sweep_depth(s.transitions@, 0);
        lemma_seq_depth_le(c, 3);
        lemma_seq_depth_concat(a, spec_sweep(s.transitions@, 0));
        lemma_seq_depth_concat(a + spec_sweep(s.transitions@, 0), c);
    }
    lemma_seq_depth_le(spec_compile_state(s), 4);
}

proof fn lemma_states_code_depth(states: Seq<State>, ids: Seq<StateId>)
    ensures
        seq_depth(spec_states_code(states, ids)) <= 4,
    decreases ids.len(),
{
    if ids.len() > 0 {
        lemma_states_code_depth(states, ids.drop_last());
        lemma_state_depth(spec_state_for(states, ids.last()));
        lemma_seq_depth_concat(
            spec_states_code(states, ids.drop_last()),
            spec_compile_state(spec_state_for(states, ids.last())),
        );
    }
}

proof fn lemma_print_depth(text: Seq<u8>)
    ensures
        seq_depth(spec_print_bytes(text)) <= 1,
    decreases text.len(),
{
    if text.len() > 0 {
        lemma_print_depth(text.drop_last());
        lemma_incr_n_depth(text.last() as nat);
        let tail = seq![SpecInstr::PrintActive, SpecInstr::PushZero, SpecInstr::PopToActive];
        lemma_seq_depth_le(tail, 1);
        lemma_seq_depth_concat(spec_print_bytes(text.drop_last()), incr_n(text.last() as nat));
        lemma_seq_depth_concat(
            spec_print_bytes(text.drop_last()) + incr_n(text.last() as nat),
            tail,
        );
    }
}

/// The lowered program is a finite tree of substrate instructions: for
/// every program, structured blocks in the emitted code nest at most five
/// levels deep.
pub proof fn lemma_lowered_program_finite(p: Program)
    ensures
        seq_depth(spec_compile_program(p)) <= 5,
{
    let states = p.states@;
    let a = seq![
        SpecInstr::ToggleErrors,
        SpecInstr::ReadToActive,
        SpecInstr::While(ingest_body()),
        SpecInstr::PushZero,
    ];
    assert(seq_depth(a) <= 5) by {
        lemma_seq_depth_le(ingest_body(), 1);
        lemma_seq_depth_le(a, 5);
    }
    let b = incr_n(spec_initial_id(states) as nat);
    lemma_incr_n_depth(spec_initial_id(states) as nat);
    let main_body = spec_states_code(states, spec_sorted_ids(states)) + seq![
        SpecInstr::PopToActive,
    ];
    assert(seq_depth(main_body) <= 4) by {
        lemma_states_code_depth(states, spec_sorted_ids(states));
        lemma_seq_depth_le(seq![SpecInstr::PopToActive], 4);
        lemma_seq_depth_concat(
            spec_states_code(states, spec_sorted_ids(states)),
            seq![SpecInstr::PopToActive],
        );
    }
    let c = seq![
        SpecInstr::While(main_body),
        SpecInstr::If(spec_print_bytes(accept_bytes())),
        SpecInstr::IncrActive,
        SpecInstr::If(spec_print_bytes(reject_bytes())),
    ];
    assert(seq_depth(c) <= 5) by {
        lemma_print_depth(accept_bytes());
        lemma_print_depth(reject_bytes());
        lemma_seq_depth_le(c, 5);
    }
    lemma_seq_depth_concat(a, b);
    lemma_seq_depth_concat(a + b, c);
}

} // verus!
