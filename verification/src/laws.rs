//! Semantic laws of the lowering: running the emitted code on the
//! substrate semantics does exactly what each piece of the design owes.
//! The tape laws say that writing a character puts that character under
//! the head and that a right move followed by a left move restores the
//! packed left tape and the head; the dispatch laws say that exactly one
//! state block executes per iteration of the main loop, ending either on
//! the next state id or on the verdict sentinel; and the prelude and
//! postlude laws say that the whole input is ingested onto the stack and
//! that exactly `ACCEPT` or `REJECT` is printed once the loop is done.

use vstd::prelude::*;
use vstd::arithmetic::div_mod::{
    lemma_fundamental_div_mod, lemma_fundamental_div_mod_converse,
};
use crate::ast::{Char, StateId, TapeInstruction, Transition};
use crate::compile::{
    accept_bytes, decr_n, incr_n, ingest_body, reject_bytes, right_adds, spec_compile_state,
    spec_compile_tape, spec_compile_transition, spec_find_transition, spec_halt_body,
    spec_print_bytes, spec_state_body, spec_state_for, spec_states_code, spec_sweep,
    transfer_body,
};
use crate::semantics::{init_state, low_byte, spec_run_instr, spec_run_seq, MState, Outcome, SpecInstr};

verus! {

/// Some step budget drives the machine from `st` through `code` to `st2`.
pub open spec fn reaches(st: MState, code: Seq<SpecInstr>, st2: MState) -> bool {
    exists|f: nat| spec_run_seq(st, code, f) == Outcome::Done(st2)
}

/// Splitting a run over a concatenation at a fixed budget.
pub proof fn lemma_run_seq_append(st: MState, s1: Seq<SpecInstr>, s2: Seq<SpecInstr>, f: nat)
    ensures
        spec_run_seq(st, s1 + s2, f) == (match spec_run_seq(st, s1, f) {
            Outcome::Done(m) => spec_run_seq(m, s2, f),
            Outcome::Fail(e) => Outcome::Fail(e),
        }),
    decreases s1.len(),
{
    if s1.len() == 0 {
        assert(s1 + s2 =~= s2);
    } else {
        assert((s1 + s2)[0] == s1[0]);
        match spec_run_instr(st, s1[0], f) {
            Outcome::Done(m) => {
                assert((s1 + s2).subrange(1, (s1 + s2).len() as int) =~= s1.subrange(
                    1,
                    s1.len() as int,
                ) + s2);
                lemma_run_seq_append(m, s1.subrange(1, s1.len() as int), s2, f);
            },
            Outcome::Fail(_) => {
                assert((s1 + s2).subrange(1, (s1 + s2).len() as int) =~= s1.subrange(
                    1,
                    s1.len() as int,
                ) + s2);
            },
        }
    }
}

/// One completed step at the head of a sequence.
pub proof fn lemma_run_seq_step(st: MState, s: Seq<SpecInstr>, f: nat, m: MState)
    requires
        s.len() > 0,
        spec_run_instr(st, s[0], f) == Outcome::Done(m),
    ensures
        spec_run_seq(st, s, f) == spec_run_seq(m, s.drop_first(), f),
{
    assert(s.subrange(1, s.len() as int) =~= s.drop_first());
}

/// The transfer loop `While { Decr; Swap; Incr; Swap }` adds `A` into `I`
/// and leaves `A = 0`, given enough budget and no overflow.
proof fn lemma_transfer_while(st: MState, f: nat)
    requires
        st.a >= 0,
        st.i + st.a <= i64::MAX,
        f >= st.a,
    ensures
        spec_run_instr(st, SpecInstr::While(transfer_body()), f) == Outcome::Done(
            MState { a: 0, i: st.i + st.a, ..st },
        ),
    decreases st.a,
{
    let w = SpecInstr::While(transfer_body());
    if st.a == 0 {
        assert(spec_run_instr(st, w, f) == Outcome::Done(st));
        assert(MState { a: 0, i: st.i + 0, ..st } == st);
    } else {
        let body = transfer_body();
        let st1 = MState { a: st.a - 1, ..st };
        lemma_run_seq_step(st, body, f, st1);
        let st2 = MState { a: st.i, i: st.a - 1, ..st };
        lemma_run_seq_step(st1, body.drop_first(), f, st2);
        let st3 = MState { a: st.i + 1, i: st.a - 1, ..st };
        lemma_run_seq_step(st2, body.drop_first().drop_first(), f, st3);
        let st4 = MState { a: st.a - 1, i: st.i + 1, ..st };
        lemma_run_seq_step(st3, body.drop_first().drop_first().drop_first(), f, st4);
        assert(body.drop_first().drop_first().drop_first().drop_first()
            =~= Seq::<SpecInstr>::empty());
        assert(spec_run_seq(st, body, f) == Outcome::Done(st4));
        lemma_transfer_while(st4, (f - 1) as nat);
        assert(spec_run_instr(st, w, f) == spec_run_instr(st4, w, (f - 1) as nat));
    }
}

/// The body of the division loop in the lowering of a left move.
pub open spec fn div_body() -> Seq<SpecInstr> {
    decr_n(128) + seq![SpecInstr::Swap, SpecInstr::IncrActive, SpecInstr::Swap]
}

/// Running `n` decrements lowers `A` by `n`.
proof fn lemma_decr_n_run(st: MState, n: nat, f: nat)
    requires
        st.a - n >= i64::MIN,
    ensures
        spec_run_seq(st, decr_n(n), f) == Outcome::Done(MState { a: st.a - n, ..st }),
    decreases n,
{
    if n == 0 {
        assert(decr_n(0) =~= Seq::<SpecInstr>::empty());
        assert(MState { a: st.a - 0, ..st } == st);
    } else {
        let st1 = MState { a: st.a - 1, ..st };
        assert(decr_n(n)[0] == SpecInstr::DecrActive);
        lemma_run_seq_step(st, decr_n(n), f, st1);
        assert(decr_n(n).drop_first() =~= decr_n((n - 1) as nat));
        lemma_decr_n_run(st1, (n - 1) as nat, f);
    }
}

/// Running `n` increments raises `A` by `n`.
proof fn lemma_incr_n_run(st: MState, n: nat, f: nat)
    requires
        st.a + n <= i64::MAX,
    ensures
        spec_run_seq(st, incr_n(n), f) == Outcome::Done(MState { a: st.a + n, ..st }),
    decreases n,
{
    if n == 0 {
        assert(incr_n(0) =~= Seq::<SpecInstr>::empty());
        assert(MState { a: st.a + 0, ..st } == st);
    } else {
        let st1 = MState { a: st.a + 1, ..st };
        assert(incr_n(n)[0] == SpecInstr::IncrActive);
        lemma_run_seq_step(st, incr_n(n), f, st1);
        assert(incr_n(n).drop_first() =~= incr_n((n - 1) as nat));
        lemma_incr_n_run(st1, (n - 1) as nat, f);
    }
}

/// The division loop: while `A > 0`, subtract 128 from `A` and count the
/// subtractions in `I`. From a positive `A` it runs `(A + 127) / 128`
/// rounds and overshoots into `[-127, 0]`.
proof fn lemma_div_while(st: MState, f: nat)
    requires
        st.a >= 0,
        st.i >= 0,
        st.i + (st.a + 127) / 128 <= i64::MAX,
        f >= (st.a + 127) / 128,
    ensures
        spec_run_instr(st, SpecInstr::While(div_body()), f) == Outcome::Done(
            MState { a: st.a - 128 * ((st.a + 127) / 128), i: st.i + (st.a + 127) / 128, ..st },
        ),
    decreases st.a,
{
    let w = SpecInstr::While(div_body());
    let x = (st.a + 127) / 128;
    if st.a == 0 {
        assert(x == 0) by {
            lemma_fundamental_div_mod(127, 128);
        }
        assert(spec_run_instr(st, w, f) == Outcome::Done(st));
        assert(MState { a: st.a - 128 * 0, i: st.i + 0, ..st } == st);
    } else {
        assert(x >= 1) by {
            lemma_fundamental_div_mod(st.a + 127, 128);
        }
        // One round of the body: A -= 128, I += 1.
        lemma_decr_n_run(st, 128, f);
        let st1 = MState { a: st.a - 128, ..st };
        lemma_run_seq_append(st, decr_n(128), seq![
            SpecInstr::Swap,
            SpecInstr::IncrActive,
            SpecInstr::Swap,
        ], f);
        let st2 = MState { a: st.i, i: st.a - 128, ..st };
        let tail = seq![SpecInstr::Swap, SpecInstr::IncrActive, SpecInstr::Swap];
        lemma_run_seq_step(st1, tail, f, st2);
        let st3 = MState { a: st.i + 1, i: st.a - 128, ..st };
        lemma_run_seq_step(st2, tail.drop_first(), f, st3);
        let st4 = MState { a: st.a - 128, i: st.i + 1, ..st };
        lemma_run_seq_step(st3, tail.drop_first().drop_first(), f, st4);
        assert(tail.drop_first().drop_first().drop_first() =~= Seq::<SpecInstr>::empty());
        assert(spec_run_seq(st, div_body(), f) == Outcome::Done(st4));
        if st4.a <= 0 {
            // The loop exits after this round; x must be exactly 1.
            assert(spec_run_instr(st4, w, (f - 1) as nat) == Outcome::Done(st4));
            assert(x == 1) by {
                lemma_fundamental_div_mod_converse(st.a + 127, 128, 1, st.a - 1);
            }
        } else {
            assert(((st4.a + 127) / 128) == x - 1) by {
                lemma_fundamental_div_mod(st.a + 127, 128);
                let r = (st.a + 127) % 128;
                assert(st.a + 127 == 128 * x + r);
                assert(st4.a + 127 == 128 * (x - 1) + r) by (nonlinear_arith)
                    requires
                        st4.a == st.a - 128,
                        st.a + 127 == 128 * x + r,
                ;
                lemma_fundamental_div_mod_converse(st4.a + 127, 128, x - 1, r);
            }
            lemma_div_while(st4, (f - 1) as nat);
            assert(128 * ((st4.a + 127) / 128) == 128 * x - 128) by (nonlinear_arith)
                requires
                    (st4.a + 127) / 128 == x - 1,
            ;
        }
        assert(spec_run_instr(st, w, f) == spec_run_instr(st4, w, (f - 1) as nat));
    }
}

proof fn lemma_div128_bounds(v: int)
    requires
        v >= 0,
    ensures
        0 <= v / 128 <= v,
        0 <= v % 128 < 128,
        v == 128 * (v / 128) + v % 128,
{
    lemma_fundamental_div_mod(v, 128);
    assert(0 <= v / 128 <= v) by (nonlinear_arith)
        requires
            v == 128 * (v / 128) + v % 128,
            0 <= v % 128 < 128,
            v >= 0,
    ;
}

/// Running the lowered left move from a state whose inactive variable
/// holds the packed left tape `LT`: the head character `LT % 128` is
/// pushed onto the stack and the inactive variable becomes `LT / 128`.
proof fn lemma_left_run(st: MState, f: nat)
    requires
        0 <= st.i,
        st.i + 1 <= i64::MAX,
        f >= st.i / 128 + 1,
    ensures
        spec_run_seq(st, spec_compile_tape(TapeInstruction::Left), f) == Outcome::Done(
            MState { a: st.i % 128, i: st.i / 128, stack: st.stack.push(st.i % 128), ..st },
        ),
{
    let lt = st.i;
    lemma_div128_bounds(lt);
    let q = lt / 128;
    let r = lt % 128;
    let head = seq![
        SpecInstr::PushZero,
        SpecInstr::PopToActive,
        SpecInstr::Swap,
        SpecInstr::IncrActive,
        SpecInstr::While(div_body()),
    ];
    let tail = seq![
        SpecInstr::DecrActive,
        SpecInstr::PushActive,
        SpecInstr::Swap,
        SpecInstr::DecrActive,
        SpecInstr::Swap,
    ];
    assert(spec_compile_tape(TapeInstruction::Left) == head + incr_n(128) + tail);
    lemma_run_seq_append(st, head + incr_n(128), tail, f);
    lemma_run_seq_append(st, head, incr_n(128), f);

    // The head chunk: zero `A`, swap `LT` in, bias by one, divide.
    let st1 = MState { stack: st.stack.push(0), ..st };
    lemma_run_seq_step(st, head, f, st1);
    let st2 = MState { a: 0, stack: st.stack, ..st };
    assert(st1.stack.last() == 0 && st1.stack.drop_last() =~= st.stack);
    lemma_run_seq_step(st1, head.drop_first(), f, st2);
    let st3 = MState { a: lt, i: 0, stack: st.stack, ..st };
    lemma_run_seq_step(st2, head.drop_first().drop_first(), f, st3);
    let st4 = MState { a: lt + 1, i: 0, stack: st.stack, ..st };
    lemma_run_seq_step(st3, head.drop_first().drop_first().drop_first(), f, st4);
    assert((lt + 1 + 127) / 128 == q + 1) by {
        lemma_fundamental_div_mod_converse(lt + 128, 128, q + 1, r);
    }
    lemma_div_while(st4, f);
    let st5 = MState { a: r - 127, i: q + 1, stack: st.stack, ..st };
    assert(spec_run_instr(st4, SpecInstr::While(div_body()), f) == Outcome::Done(st5)) by {
        assert(lt + 1 - 128 * (q + 1) == r - 127) by (nonlinear_arith)
            requires
                lt == 128 * q + r,
        ;
    }
    lemma_run_seq_step(
        st4,
        head.drop_first().drop_first().drop_first().drop_first(),
        f,
        st5,
    );
    assert(head.drop_first().drop_first().drop_first().drop_first().drop_first()
        =~= Seq::<SpecInstr>::empty());
    assert(spec_run_seq(st, head, f) == Outcome::Done(st5));

    // Add 128 back, then the five-instruction tail.
    lemma_incr_n_run(st5, 128, f);
    let st6 = MState { a: r + 1, i: q + 1, stack: st.stack, ..st };
    assert(spec_run_seq(st, head + incr_n(128), f) == Outcome::Done(st6));
    let st7 = MState { a: r, i: q + 1, stack: st.stack, ..st };
    lemma_run_seq_step(st6, tail, f, st7);
    let st8 = MState { a: r, i: q + 1, stack: st.stack.push(r), ..st };
    lemma_run_seq_step(st7, tail.drop_first(), f, st8);
    let st9 = MState { a: q + 1, i: r, stack: st.stack.push(r), ..st };
    lemma_run_seq_step(st8, tail.drop_first().drop_first(), f, st9);
    let st10 = MState { a: q, i: r, stack: st.stack.push(r), ..st };
    lemma_run_seq_step(st9, tail.drop_first().drop_first().drop_first(), f, st10);
    let st11 = MState { a: r, i: q, stack: st.stack.push(r), ..st };
    lemma_run_seq_step(st10, tail.drop_first().drop_first().drop_first().drop_first(), f, st11);
    assert(tail.drop_first().drop_first().drop_first().drop_first().drop_first()
        =~= Seq::<SpecInstr>::empty());
    assert(spec_run_seq(st6, tail, f) == Outcome::Done(st11));
}

/// Running `n` add-rounds of the lowered right move: each round adds the
/// saved copy of the left tape (on top of the stack, also in `A`) into
/// `I`.
proof fn lemma_right_adds_run(st: MState, n: nat, f: nat)
    requires
        st.a >= 0,
        st.stack.len() > 0,
        st.stack.last() == st.a,
        st.i + n * st.a <= i64::MAX,
        f >= st.a,
    ensures
        spec_run_seq(st, right_adds(n), f) == Outcome::Done(MState { i: st.i + n * st.a, ..st }),
    decreases n,
{
    if n == 0 {
        assert(right_adds(0) =~= Seq::<SpecInstr>::empty());
        assert(MState { i: st.i + 0, ..st } == st);
    } else {
        assert((n - 1) * st.a == n * st.a - st.a && n * st.a >= st.a) by (nonlinear_arith)
            requires
                st.a >= 0,
                n >= 1,
        ;
        lemma_right_adds_run(st, (n - 1) as nat, f);
        let m = MState { i: st.i + (n - 1) * st.a, ..st };
        lemma_run_seq_append(
            st,
            right_adds((n - 1) as nat),
            seq![
                SpecInstr::While(transfer_body()),
                SpecInstr::PopToActive,
                SpecInstr::PushActive,
            ],
            f,
        );
        let chunk = seq![
            SpecInstr::While(transfer_body()),
            SpecInstr::PopToActive,
            SpecInstr::PushActive,
        ];
        lemma_transfer_while(m, f);
        let m1 = MState { a: 0, i: st.i + n * st.a, ..st };
        assert(spec_run_instr(m, chunk[0], f) == Outcome::Done(m1));
        lemma_run_seq_step(m, chunk, f, m1);
        let m2 = MState { a: st.a, i: st.i + n * st.a, stack: st.stack.drop_last(), ..st };
        lemma_run_seq_step(m1, chunk.drop_first(), f, m2);
        let m3 = MState { a: st.a, i: st.i + n * st.a, ..st };
        assert(st.stack.drop_last().push(st.a) =~= st.stack);
        lemma_run_seq_step(m2, chunk.drop_first().drop_first(), f, m3);
        assert(chunk.drop_first().drop_first().drop_first() =~= Seq::<SpecInstr>::empty());
        assert(spec_run_seq(m, chunk, f) == Outcome::Done(m3));
        assert(m3 == MState { i: st.i + n * st.a, ..st });
    }
}

/// Running the lowered right move from a state whose inactive variable
/// holds `LT` and whose stack top is the head `H`: the inactive variable
/// becomes `LT * 128 + H` and the head is consumed, leaving the right
/// tape on the stack.
proof fn lemma_right_run(st: MState, h: int, rest: Seq<int>, f: nat)
    requires
        0 <= st.i,
        0 <= h,
        st.stack == rest.push(h),
        128 * st.i + h <= i64::MAX,
        f >= st.i,
        f >= h,
    ensures
        spec_run_seq(st, spec_compile_tape(TapeInstruction::Right), f) == Outcome::Done(
            MState { a: 0, i: 128 * st.i + h, stack: rest, ..st },
        ),
{
    let lt = st.i;
    assert(lt + 127 * lt == 128 * lt && lt <= 128 * lt) by (nonlinear_arith)
        requires
            lt >= 0,
    ;
    let head = seq![SpecInstr::Swap, SpecInstr::PushActive, SpecInstr::SaveActive];
    let tail = seq![
        SpecInstr::PopToActive,
        SpecInstr::PopToActive,
        SpecInstr::While(transfer_body()),
    ];
    assert(spec_compile_tape(TapeInstruction::Right) == head + right_adds(127) + tail);
    lemma_run_seq_append(st, head + right_adds(127), tail, f);
    lemma_run_seq_append(st, head, right_adds(127), f);

    let st1 = MState { a: lt, i: st.a, ..st };
    lemma_run_seq_step(st, head, f, st1);
    let st2 = MState { a: lt, i: st.a, stack: st.stack.push(lt), ..st };
    lemma_run_seq_step(st1, head.drop_first(), f, st2);
    let st3 = MState { a: lt, i: lt, stack: st.stack.push(lt), ..st };
    lemma_run_seq_step(st2, head.drop_first().drop_first(), f, st3);
    assert(head.drop_first().drop_first().drop_first() =~= Seq::<SpecInstr>::empty());
    assert(spec_run_seq(st, head, f) == Outcome::Done(st3));

    lemma_right_adds_run(st3, 127, f);
    let st4 = MState { a: lt, i: lt + 127 * lt, stack: st.stack.push(lt), ..st };
    assert(spec_run_seq(st, head + right_adds(127), f) == Outcome::Done(st4));

    let st5 = MState { a: lt, i: 128 * lt, stack: st.stack, ..st };
    assert(st4.stack.last() == lt && st4.stack.drop_last() =~= st.stack);
    assert(st4.i == 128 * lt);
    lemma_run_seq_step(st4, tail, f, st5);
    let st6 = MState { a: h, i: 128 * lt, stack: rest, ..st };
    assert(st5.stack.last() == h && st5.stack.drop_last() =~= rest);
    lemma_run_seq_step(st5, tail.drop_first(), f, st6);
    lemma_transfer_while(st6, f);
    let st7 = MState { a: 0, i: 128 * lt + h, stack: rest, ..st };
    assert(spec_run_instr(st6, SpecInstr::While(transfer_body()), f) == Outcome::Done(st7));
    lemma_run_seq_step(st6, tail.drop_first().drop_first(), f, st7);
    assert(tail.drop_first().drop_first().drop_first() =~= Seq::<SpecInstr>::empty());
    assert(spec_run_seq(st4, tail, f) == Outcome::Done(st7));
}

/// Running the lowered write from a state whose stack top is the old
/// head: the head is replaced and nothing else changes.
proof fn lemma_write_run(st: MState, c: Char, h: int, rest: Seq<int>, f: nat)
    requires
        st.stack == rest.push(h),
    ensures
        spec_run_seq(st, spec_compile_tape(TapeInstruction::Write(c)), f) == Outcome::Done(
            MState { a: c as int, stack: rest.push(c as int), ..st },
        ),
{
    let head = seq![SpecInstr::PopToActive, SpecInstr::PushZero, SpecInstr::PopToActive];
    let tail = seq![SpecInstr::PushActive];
    assert(spec_compile_tape(TapeInstruction::Write(c)) == head + incr_n(c as nat) + tail);
    lemma_run_seq_append(st, head + incr_n(c as nat), tail, f);
    lemma_run_seq_append(st, head, incr_n(c as nat), f);
    let st1 = MState { a: h, stack: rest, ..st };
    assert(st.stack.last() == h && st.stack.drop_last() =~= rest);
    lemma_run_seq_step(st, head, f, st1);
    let st2 = MState { a: h, stack: rest.push(0), ..st };
    lemma_run_seq_step(st1, head.drop_first(), f, st2);
    let st3 = MState { a: 0, stack: rest, ..st };
    assert(st2.stack.last() == 0 && st2.stack.drop_last() =~= rest);
    lemma_run_seq_step(st2, head.drop_first().drop_first(), f, st3);
    assert(head.drop_first().drop_first().drop_first() =~= Seq::<SpecInstr>::empty());
    assert(spec_run_seq(st, head, f) == Outcome::Done(st3));
    lemma_incr_n_run(st3, c as nat, f);
    let st4 = MState { a: c as int, stack: rest, ..st };
    assert(spec_run_seq(st, head + incr_n(c as nat), f) == Outcome::Done(st4));
    let st5 = MState { a: c as int, stack: rest.push(c as int), ..st };
    lemma_run_seq_step(st4, tail, f, st5);
    assert(tail.drop_first() =~= Seq::<SpecInstr>::empty());
    assert(spec_run_seq(st4, tail, f) == Outcome::Done(st5));
}

/// What one tape instruction does to the packed left tape, the head and
/// the right tape, with the head and right tape as one stack (`rest`
/// below the head `h`): the pair of the new packed left tape and the new
/// stack.
pub open spec fn spec_tape_effect(t: TapeInstruction, lt: int, h: int, rest: Seq<int>) -> (
    int,
    Seq<int>,
) {
    match t {
        TapeInstruction::Left => (lt / 128, rest.push(h).push(lt % 128)),
        TapeInstruction::Right => (128 * lt + h, rest),
        TapeInstruction::Write(c) => (lt, rest.push(c as int)),
    }
}

/// The "a transition fired" witness: the lowered transition body updates
/// the tape, pushes the updated left tape and then the next state id on
/// the stack, and leaves `A = 0` and `I = -1`. The sentinel `I = -1`
/// survives the rest of the character sweep and marks the fall-through
/// HALT check as not applicable.
pub proof fn lemma_transition_fired_witness(
    st: MState,
    t: Transition,
    h: int,
    lt: int,
    rest: Seq<int>,
    f: nat,
)
    requires
        st.a == h,
        st.i == h,
        st.stack == rest.push(lt),
        0 <= h < 128,
        0 <= lt,
        128 * lt + h + 1 <= i64::MAX,
        t.next_state <= i64::MAX,
        f >= 128 * lt + h + 1,
    ensures
        spec_run_seq(st, spec_compile_transition(t), f) == Outcome::Done(
            MState {
                a: 0,
                i: -1,
                stack: spec_tape_effect(t.tape_instruction, lt, h, rest).1.push(
                    spec_tape_effect(t.tape_instruction, lt, h, rest).0,
                ).push(t.next_state as int),
                ..st
            },
        ),
{
    assert(lt <= 128 * lt && h <= 128 * lt + h) by (nonlinear_arith)
        requires
            lt >= 0,
            h >= 0,
    ;
    let pre = seq![SpecInstr::PopToActive, SpecInstr::Swap, SpecInstr::PushActive];
    let tape = spec_compile_tape(t.tape_instruction);
    let mid = seq![
        SpecInstr::Swap,
        SpecInstr::PushActive,
        SpecInstr::PushZero,
        SpecInstr::PopToActive,
        SpecInstr::SaveActive,
    ];
    let post = seq![
        SpecInstr::PushActive,
        SpecInstr::PushZero,
        SpecInstr::PopToActive,
        SpecInstr::DecrActive,
        SpecInstr::Swap,
    ];
    assert(spec_compile_transition(t) == pre + tape + mid + incr_n(t.next_state as nat) + post);
    lemma_run_seq_append(st, pre + tape + mid + incr_n(t.next_state as nat), post, f);
    lemma_run_seq_append(st, pre + tape + mid, incr_n(t.next_state as nat), f);
    lemma_run_seq_append(st, pre + tape, mid, f);
    lemma_run_seq_append(st, pre, tape, f);

    // Unpack: pop the left tape, swap the head out, re-push the head.
    let st1 = MState { a: lt, stack: rest, ..st };
    assert(st.stack.last() == lt && st.stack.drop_last() =~= rest);
    lemma_run_seq_step(st, pre, f, st1);
    let st2 = MState { a: h, i: lt, stack: rest, ..st };
    lemma_run_seq_step(st1, pre.drop_first(), f, st2);
    let st3 = MState { a: h, i: lt, stack: rest.push(h), ..st };
    lemma_run_seq_step(st2, pre.drop_first().drop_first(), f, st3);
    assert(pre.drop_first().drop_first().drop_first() =~= Seq::<SpecInstr>::empty());
    assert(spec_run_seq(st, pre, f) == Outcome::Done(st3));

    // The tape update itself.
    let effect = spec_tape_effect(t.tape_instruction, lt, h, rest);
    let st4 = match t.tape_instruction {
        TapeInstruction::Left => {
            lemma_div128_bounds(lt);
            lemma_left_run(st3, f);
            MState { a: lt % 128, i: lt / 128, stack: rest.push(h).push(lt % 128), ..st }
        },
        TapeInstruction::Right => {
            lemma_right_run(st3, h, rest, f);
            MState { a: 0, i: 128 * lt + h, stack: rest, ..st }
        },
        TapeInstruction::Write(c) => {
            lemma_write_run(st3, c, h, rest, f);
            MState { a: c as int, i: lt, stack: rest.push(c as int), ..st }
        },
    };
    assert(spec_run_seq(st3, tape, f) == Outcome::Done(st4));
    assert(st4.i == effect.0 && st4.stack == effect.1);

    // Repack: push the new left tape, zero both variables.
    let st5 = MState { a: effect.0, i: st4.a, ..st4 };
    lemma_run_seq_step(st4, mid, f, st5);
    let st6 = MState { stack: st4.stack.push(effect.0), ..st5 };
    lemma_run_seq_step(st5, mid.drop_first(), f, st6);
    let st7 = MState { stack: st6.stack.push(0), ..st6 };
    lemma_run_seq_step(st6, mid.drop_first().drop_first(), f, st7);
    let st8 = MState { a: 0, stack: st6.stack, ..st6 };
    assert(st7.stack.last() == 0 && st7.stack.drop_last() =~= st6.stack);
    lemma_run_seq_step(st7, mid.drop_first().drop_first().drop_first(), f, st8);
    let st9 = MState { i: 0, ..st8 };
    lemma_run_seq_step(st8, mid.drop_first().drop_first().drop_first().drop_first(), f, st9);
    assert(mid.drop_first().drop_first().drop_first().drop_first().drop_first()
        =~= Seq::<SpecInstr>::empty());
    assert(spec_run_seq(st4, mid, f) == Outcome::Done(st9));

    // Count up to the next state id and push it, then set the witness.
    lemma_incr_n_run(st9, t.next_state as nat, f);
    let st10 = MState { a: t.next_state as int, ..st9 };
    let st11 = MState { stack: st10.stack.push(t.next_state as int), ..st10 };
    lemma_run_seq_step(st10, post, f, st11);
    let st12 = MState { stack: st11.stack.push(0), ..st11 };
    lemma_run_seq_step(st11, post.drop_first(), f, st12);
    let st13 = MState { a: 0, stack: st11.stack, ..st11 };
    assert(st12.stack.last() == 0 && st12.stack.drop_last() =~= st11.stack);
    lemma_run_seq_step(st12, post.drop_first().drop_first(), f, st13);
    let st14 = MState { a: -1, ..st13 };
    lemma_run_seq_step(st13, post.drop_first().drop_first().drop_first(), f, st14);
    let st15 = MState { a: 0, i: -1, ..st13 };
    lemma_run_seq_step(st14, post.drop_first().drop_first().drop_first().drop_first(), f, st15);
    assert(post.drop_first().drop_first().drop_first().drop_first().drop_first()
        =~= Seq::<SpecInstr>::empty());
    assert(spec_run_seq(st10, post, f) == Outcome::Done(st15));
}

/// The character sweep when nothing can fire any more: with the counter
/// ahead of every character that still has a guarded transition — either
/// the head in `I` has no transition, or lies outside the remaining
/// range, or is the negative fired-witness — the sweep only counts the
/// active variable up to the alphabet size... each remaining character
/// costs exactly one increment.
proof fn lemma_sweep_no_fire(trs: Seq<Transition>, c: int, st: MState, f: nat)
    requires
        0 <= c <= 128,
        st.a == c,
        !(c <= st.i < 128 && st.i >= 0 && spec_find_transition(trs, st.i as Char) is Some),
    ensures
        spec_run_seq(st, spec_sweep(trs, c), f) == Outcome::Done(MState { a: 128, ..st }),
    decreases 128 - c,
{
    if c == 128 {
        assert(spec_sweep(trs, c) =~= Seq::<SpecInstr>::empty());
        assert(MState { a: 128, ..st } == st);
    } else {
        let guard = match spec_find_transition(trs, c as Char) {
            Some(t) => seq![SpecInstr::If(spec_compile_transition(t))],
            None => Seq::<SpecInstr>::empty(),
        };
        assert(spec_sweep(trs, c) == guard + seq![SpecInstr::IncrActive] + spec_sweep(trs, c + 1));
        lemma_run_seq_append(st, guard + seq![SpecInstr::IncrActive], spec_sweep(trs, c + 1), f);
        let st1 = MState { a: c + 1, ..st };
        match spec_find_transition(trs, c as Char) {
            Some(t) => {
                // The counter differs from the head, so the guard skips.
                assert(st.a != st.i);
                assert(spec_run_instr(st, guard[0], f) == Outcome::Done(st));
                lemma_run_seq_step(st, guard + seq![SpecInstr::IncrActive], f, st);
                assert((guard + seq![SpecInstr::IncrActive]).drop_first() =~= seq![
                    SpecInstr::IncrActive,
                ]);
                lemma_run_seq_step(st, seq![SpecInstr::IncrActive], f, st1);
                assert(seq![SpecInstr::IncrActive].drop_first() =~= Seq::<SpecInstr>::empty());
            },
            None => {
                assert(guard + seq![SpecInstr::IncrActive] =~= seq![SpecInstr::IncrActive]);
                lemma_run_seq_step(st, seq![SpecInstr::IncrActive], f, st1);
                assert(seq![SpecInstr::IncrActive].drop_first() =~= Seq::<SpecInstr>::empty());
            },
        }
        assert(spec_run_seq(st, guard + seq![SpecInstr::IncrActive], f) == Outcome::Done(st1));
        lemma_sweep_no_fire(trs, c + 1, st1, f);
    }
}

/// The character sweep after a transition fired: the fired witness
/// `I = -1` keeps every remaining guard closed, and the counter just
/// rides the per-character increments to the end of the sweep.
proof fn lemma_sweep_after_fire(trs: Seq<Transition>, c: int, st: MState, f: nat)
    requires
        0 <= c <= 128,
        st.a >= 0,
        st.i < 0,
        st.a + 128 - c <= i64::MAX,
    ensures
        spec_run_seq(st, spec_sweep(trs, c), f) == Outcome::Done(
            MState { a: st.a + 128 - c, ..st },
        ),
    decreases 128 - c,
{
    if c == 128 {
        assert(spec_sweep(trs, c) =~= Seq::<SpecInstr>::empty());
        assert(MState { a: st.a + 0, ..st } == st);
    } else {
        let guard = match spec_find_transition(trs, c as Char) {
            Some(t) => seq![SpecInstr::If(spec_compile_transition(t))],
            None => Seq::<SpecInstr>::empty(),
        };
        assert(spec_sweep(trs, c) == guard + seq![SpecInstr::IncrActive] + spec_sweep(trs, c + 1));
        lemma_run_seq_append(st, guard + seq![SpecInstr::IncrActive], spec_sweep(trs, c + 1), f);
        let st1 = MState { a: st.a + 1, ..st };
        match spec_find_transition(trs, c as Char) {
            Some(t) => {
                assert(st.a != st.i);
                assert(spec_run_instr(st, guard[0], f) == Outcome::Done(st));
                lemma_run_seq_step(st, guard + seq![SpecInstr::IncrActive], f, st);
                assert((guard + seq![SpecInstr::IncrActive]).drop_first() =~= seq![
                    SpecInstr::IncrActive,
                ]);
                lemma_run_seq_step(st, seq![SpecInstr::IncrActive], f, st1);
                assert(seq![SpecInstr::IncrActive].drop_first() =~= Seq::<SpecInstr>::empty());
            },
            None => {
                assert(guard + seq![SpecInstr::IncrActive] =~= seq![SpecInstr::IncrActive]);
                lemma_run_seq_step(st, seq![SpecInstr::IncrActive], f, st1);
                assert(seq![SpecInstr::IncrActive].drop_first() =~= Seq::<SpecInstr>::empty());
            },
        }
        assert(spec_run_seq(st, guard + seq![SpecInstr::IncrActive], f) == Outcome::Done(st1));
        lemma_sweep_after_fire(trs, c + 1, st1, f);
    }
}

/// Transition dispatch by head-character sweep: starting the sweep with
/// the counter at `c`, the head `h` in `I` and a transition guarded on
/// `h` ahead, exactly that one guard fires; the sweep ends with the fired
/// witness `I = -1` and the transition body's tape effect on the stack.
proof fn lemma_sweep_fires(
    trs: Seq<Transition>,
    c: int,
    st: MState,
    t: Transition,
    h: int,
    lt: int,
    rest: Seq<int>,
    f: nat,
)
    requires
        0 <= c <= h < 128,
        st.a == c,
        st.i == h,
        spec_find_transition(trs, h as Char) == Some(t),
        st.stack == rest.push(lt),
        0 <= lt,
        128 * lt + h + 1 <= i64::MAX,
        t.next_state <= i64::MAX,
        f >= 128 * lt + h + 1,
    ensures
        spec_run_seq(st, spec_sweep(trs, c), f) == Outcome::Done(
            MState {
                a: 128 - h,
                i: -1,
                stack: spec_tape_effect(t.tape_instruction, lt, h, rest).1.push(
                    spec_tape_effect(t.tape_instruction, lt, h, rest).0,
                ).push(t.next_state as int),
                ..st
            },
        ),
    decreases 128 - c,
{
    let guard = match spec_find_transition(trs, c as Char) {
        Some(g) => seq![SpecInstr::If(spec_compile_transition(g))],
        None => Seq::<SpecInstr>::empty(),
    };
    assert(spec_sweep(trs, c) == guard + seq![SpecInstr::IncrActive] + spec_sweep(trs, c + 1));
    lemma_run_seq_append(st, guard + seq![SpecInstr::IncrActive], spec_sweep(trs, c + 1), f);
    if c == h {
        // This is the matching character: the guard exists and fires.
        let fired = MState {
            a: 0,
            i: -1,
            stack: spec_tape_effect(t.tape_instruction, lt, h, rest).1.push(
                spec_tape_effect(t.tape_instruction, lt, h, rest).0,
            ).push(t.next_state as int),
            ..st
        };
        lemma_transition_fired_witness(st, t, h, lt, rest, f);
        assert(spec_run_instr(st, guard[0], f) == Outcome::Done(fired));
        lemma_run_seq_step(st, guard + seq![SpecInstr::IncrActive], f, fired);
        assert((guard + seq![SpecInstr::IncrActive]).drop_first() =~= seq![
            SpecInstr::IncrActive,
        ]);
        let bumped = MState { a: 1, ..fired };
        lemma_run_seq_step(fired, seq![SpecInstr::IncrActive], f, bumped);
        assert(seq![SpecInstr::IncrActive].drop_first() =~= Seq::<SpecInstr>::empty());
        assert(spec_run_seq(st, guard + seq![SpecInstr::IncrActive], f) == Outcome::Done(bumped));
        lemma_sweep_after_fire(trs, c + 1, bumped, f);
        assert(1 + 128 - (c + 1) == 128 - h);
    } else {
        // Not the matching character yet: skip one chunk and go on.
        let st1 = MState { a: c + 1, ..st };
        match spec_find_transition(trs, c as Char) {
            Some(g) => {
                assert(st.a != st.i);
                assert(spec_run_instr(st, guard[0], f) == Outcome::Done(st));
                lemma_run_seq_step(st, guard + seq![SpecInstr::IncrActive], f, st);
                assert((guard + seq![SpecInstr::IncrActive]).drop_first() =~= seq![
                    SpecInstr::IncrActive,
                ]);
                lemma_run_seq_step(st, seq![SpecInstr::IncrActive], f, st1);
                assert(seq![SpecInstr::IncrActive].drop_first() =~= Seq::<SpecInstr>::empty());
            },
            None => {
                assert(guard + seq![SpecInstr::IncrActive] =~= seq![SpecInstr::IncrActive]);
                lemma_run_seq_step(st, seq![SpecInstr::IncrActive], f, st1);
                assert(seq![SpecInstr::IncrActive].drop_first() =~= Seq::<SpecInstr>::empty());
            },
        }
        assert(spec_run_seq(st, guard + seq![SpecInstr::IncrActive], f) == Outcome::Done(st1));
        lemma_sweep_fires(trs, c + 1, st1, t, h, lt, rest, f);
    }
}

/// State dispatch by countdown, the matching case (the whole contract of
/// one state block): entered with counter `1`, the block unpacks the head
/// `h`, and either the state's transition on `h` fires — leaving the
/// updated tape with the next state id on top — or no transition matches
/// and the block rebuilds the packed stack and pushes the verdict
/// sentinel, `0` when the state accepts and `-1` when it rejects. Either
/// way both variables end at `0`, ready for the next iteration.
pub proof fn lemma_state_block_matches(
    st: MState,
    s: crate::ast::State,
    h: int,
    lt: int,
    rtape: Seq<int>,
    f: nat,
)
    requires
        st.a == 1,
        st.i == 0,
        st.stack == rtape.push(h).push(lt),
        0 <= h < 128,
        0 <= lt,
        128 * lt + h + 1 <= i64::MAX,
        forall|k: int|
            0 <= k < s.transitions@.len() ==> (#[trigger] s.transitions@[k]).next_state
                <= i64::MAX,
        f >= 128 * lt + h + 2,
    ensures
        spec_run_seq(st, spec_compile_state(s), f) == Outcome::Done(
            match spec_find_transition(s.transitions@, h as Char) {
                Some(t) => MState {
                    a: 0,
                    i: 0,
                    stack: spec_tape_effect(t.tape_instruction, lt, h, rtape).1.push(
                        spec_tape_effect(t.tape_instruction, lt, h, rtape).0,
                    ).push(t.next_state as int),
                    ..st
                },
                None => MState {
                    a: 0,
                    i: 0,
                    stack: rtape.push(h).push(lt).push(
                        if s.accepting {
                            0int
                        } else {
                            -1int
                        },
                    ),
                    ..st
                },
            },
        ),
{
    let code = spec_compile_state(s);
    let st1 = MState { a: 0, ..st };
    lemma_run_seq_step(st, code, f, st1);

    // The guarded body fires (the counter reached zero).
    let body = spec_state_body(s);
    let unpack = seq![
        SpecInstr::PopToActive,
        SpecInstr::Swap,
        SpecInstr::PopToActive,
        SpecInstr::Swap,
        SpecInstr::PushActive,
        SpecInstr::PushZero,
        SpecInstr::PopToActive,
    ];
    let halt = seq![
        SpecInstr::Swap,
        SpecInstr::IncrActive,
        SpecInstr::While(spec_halt_body(s.accepting)),
        SpecInstr::SaveActive,
    ];
    assert(body == unpack + spec_sweep(s.transitions@, 0) + halt);
    lemma_run_seq_append(st1, unpack + spec_sweep(s.transitions@, 0), halt, f);
    lemma_run_seq_append(st1, unpack, spec_sweep(s.transitions@, 0), f);

    // Unpack the head character.
    let u1 = MState { a: lt, stack: rtape.push(h), ..st1 };
    assert(st1.stack.last() == lt && st1.stack.drop_last() =~= rtape.push(h));
    lemma_run_seq_step(st1, unpack, f, u1);
    let u2 = MState { a: 0, i: lt, stack: rtape.push(h), ..st };
    lemma_run_seq_step(u1, unpack.drop_first(), f, u2);
    let u3 = MState { a: h, i: lt, stack: rtape, ..st };
    assert(u2.stack.last() == h && u2.stack.drop_last() =~= rtape);
    lemma_run_seq_step(u2, unpack.drop_first().drop_first(), f, u3);
    let u4 = MState { a: lt, i: h, stack: rtape, ..st };
    lemma_run_seq_step(u3, unpack.drop_first().drop_first().drop_first(), f, u4);
    let u5 = MState { a: lt, i: h, stack: rtape.push(lt), ..st };
    lemma_run_seq_step(u4, unpack.drop_first().drop_first().drop_first().drop_first(), f, u5);
    let u6 = MState { stack: u5.stack.push(0), ..u5 };
    let un5 = unpack.drop_first().drop_first().drop_first().drop_first().drop_first();
    lemma_run_seq_step(u5, un5, f, u6);
    let u7 = MState { a: 0, i: h, stack: rtape.push(lt), ..st };
    assert(u6.stack.last() == 0 && u6.stack.drop_last() =~= u5.stack);
    lemma_run_seq_step(u6, un5.drop_first(), f, u7);
    assert(un5.drop_first().drop_first() =~= Seq::<SpecInstr>::empty());
    assert(spec_run_seq(st1, unpack, f) == Outcome::Done(u7));

    // The sweep, then the HALT check.
    let done = match spec_find_transition(s.transitions@, h as Char) {
        Some(t) => {
            assert(t == spec_find_transition(s.transitions@, h as Char).unwrap());
            assert(s.transitions@.contains(t)) by {
                lemma_find_transition_is_member(s.transitions@, h as Char);
            }
            let k = choose|k: int| 0 <= k < s.transitions@.len() && s.transitions@[k] == t;
            assert(t.next_state <= i64::MAX);
            lemma_sweep_fires(s.transitions@, 0, u7, t, h, lt, rtape, f);
            let fired = MState {
                a: 128 - h,
                i: -1,
                stack: spec_tape_effect(t.tape_instruction, lt, h, rtape).1.push(
                    spec_tape_effect(t.tape_instruction, lt, h, rtape).0,
                ).push(t.next_state as int),
                ..st
            };
            assert(spec_run_seq(st1, unpack + spec_sweep(s.transitions@, 0), f) == Outcome::Done(
                fired,
            ));
            lemma_halt_check_passes(fired, s.accepting, f);
            MState { a: 0, i: 0, ..fired }
        },
        None => {
            lemma_sweep_no_fire(s.transitions@, 0, u7, f);
            let swept = MState { a: 128, i: h, stack: rtape.push(lt), ..st };
            assert(spec_run_seq(st1, unpack + spec_sweep(s.transitions@, 0), f) == Outcome::Done(
                swept,
            ));
            lemma_halt_check_fires(swept, s.accepting, h, lt, rtape, f);
            MState {
                a: 0,
                i: 0,
                stack: rtape.push(h).push(lt).push(
                    if s.accepting {
                        0int
                    } else {
                        -1int
                    },
                ),
                ..st
            }
        },
    };
    assert(spec_run_seq(st1, body, f) == Outcome::Done(done));
    assert(spec_run_instr(st1, code.drop_first()[0], f) == Outcome::Done(done));
    lemma_run_seq_step(st1, code.drop_first(), f, done);
    assert(code.drop_first().drop_first() =~= Seq::<SpecInstr>::empty());
    assert(spec_run_seq(st, code, f) == Outcome::Done(done));
}

/// The matching state block when the head lies past every written cell:
/// the stack holds only the packed left tape, so unpacking the head pops
/// the blank from the empty stack (errors are disabled in lowered
/// programs). No transition can match the blank, so the block halts with
/// the state's verdict, materializing the blank head in the rebuilt
/// stack.
pub proof fn lemma_state_block_matches_blank(st: MState, s: crate::ast::State, lt: int, f: nat)
    requires
        st.a == 1,
        st.i == 0,
        st.stack == seq![lt],
        !st.errors,
        spec_find_transition(s.transitions@, 0) is None,
        f >= 1,
    ensures
        spec_run_seq(st, spec_compile_state(s), f) == Outcome::Done(
            MState {
                a: 0,
                i: 0,
                stack: seq![0int].push(lt).push(
                    if s.accepting {
                        0int
                    } else {
                        -1int
                    },
                ),
                ..st
            },
        ),
{
    let code = spec_compile_state(s);
    let st1 = MState { a: 0, ..st };
    lemma_run_seq_step(st, code, f, st1);

    let body = spec_state_body(s);
    let unpack = seq![
        SpecInstr::PopToActive,
        SpecInstr::Swap,
        SpecInstr::PopToActive,
        SpecInstr::Swap,
        SpecInstr::PushActive,
        SpecInstr::PushZero,
        SpecInstr::PopToActive,
    ];
    let halt = seq![
        SpecInstr::Swap,
        SpecInstr::IncrActive,
        SpecInstr::While(spec_halt_body(s.accepting)),
        SpecInstr::SaveActive,
    ];
    assert(body == unpack + spec_sweep(s.transitions@, 0) + halt);
    lemma_run_seq_append(st1, unpack + spec_sweep(s.transitions@, 0), halt, f);
    lemma_run_seq_append(st1, unpack, spec_sweep(s.transitions@, 0), f);

    // Unpack: the left tape comes off, the head pop finds the stack
    // empty and yields the blank.
    let u1 = MState { a: lt, stack: Seq::empty(), ..st1 };
    assert(st1.stack.last() == lt && st1.stack.drop_last() =~= Seq::<int>::empty());
    lemma_run_seq_step(st1, unpack, f, u1);
    let u2 = MState { a: 0, i: lt, stack: Seq::empty(), ..st };
    lemma_run_seq_step(u1, unpack.drop_first(), f, u2);
    let u3 = u2;
    lemma_run_seq_step(u2, unpack.drop_first().drop_first(), f, u3);
    let u4 = MState { a: lt, i: 0, stack: Seq::empty(), ..st };
    lemma_run_seq_step(u3, unpack.drop_first().drop_first().drop_first(), f, u4);
    let u5 = MState { a: lt, i: 0, stack: seq![lt], ..st };
    lemma_run_seq_step(u4, unpack.drop_first().drop_first().drop_first().drop_first(), f, u5);
    let u6 = MState { stack: u5.stack.push(0), ..u5 };
    let un5 = unpack.drop_first().drop_first().drop_first().drop_first().drop_first();
    lemma_run_seq_step(u5, un5, f, u6);
    let u7 = MState { a: 0, i: 0, stack: seq![lt], ..st };
    assert(u6.stack.last() == 0 && u6.stack.drop_last() =~= u5.stack);
    lemma_run_seq_step(u6, un5.drop_first(), f, u7);
    assert(un5.drop_first().drop_first() =~= Seq::<SpecInstr>::empty());
    assert(spec_run_seq(st1, unpack, f) == Outcome::Done(u7));

    // The sweep cannot fire on the blank; the HALT check pushes the
    // verdict over the materialized blank head.
    lemma_sweep_no_fire(s.transitions@, 0, u7, f);
    let swept = MState { a: 128, i: 0, stack: seq![lt], ..st };
    assert(spec_run_seq(st1, unpack + spec_sweep(s.transitions@, 0), f) == Outcome::Done(swept));
    assert(swept.stack == Seq::<int>::empty().push(lt));
    lemma_halt_check_fires(swept, s.accepting, 0, lt, Seq::empty(), f);
    let done = MState {
        a: 0,
        i: 0,
        stack: Seq::<int>::empty().push(0).push(lt).push(
            if s.accepting {
                0int
            } else {
                -1int
            },
        ),
        ..st
    };
    assert(spec_run_seq(st1, body, f) == Outcome::Done(done));
    assert(spec_run_instr(st1, code.drop_first()[0], f) == Outcome::Done(done));
    lemma_run_seq_step(st1, code.drop_first(), f, done);
    assert(code.drop_first().drop_first() =~= Seq::<SpecInstr>::empty());
    assert(done.stack =~= seq![0int].push(lt).push(
        if s.accepting {
            0int
        } else {
            -1int
        },
    ));
}

/// A run of state blocks entered with a counter that none of them can
/// match — zero or below, or beyond the number of blocks — only counts
/// the active variable down, once per block.
proof fn lemma_blocks_all_skip(states: Seq<crate::ast::State>, ids: Seq<StateId>, st: MState, f: nat)
    requires
        st.i == 0,
        st.a <= 0 || st.a > ids.len(),
        st.a - ids.len() > i64::MIN as int,
    ensures
        spec_run_seq(st, spec_states_code(states, ids), f) == Outcome::Done(
            MState { a: st.a - ids.len(), ..st },
        ),
    decreases ids.len(),
{
    if ids.len() == 0 {
        assert(spec_states_code(states, ids) =~= Seq::<SpecInstr>::empty());
        assert(MState { a: st.a - 0, ..st } == st);
    } else {
        lemma_blocks_all_skip(states, ids.drop_last(), st, f);
        let mid = MState { a: st.a - (ids.len() - 1), ..st };
        lemma_run_seq_append(
            st,
            spec_states_code(states, ids.drop_last()),
            spec_compile_state(spec_state_for(states, ids.last())),
            f,
        );
        lemma_state_block_skips(mid, spec_state_for(states, ids.last()), f);
    }
}

/// State dispatch by countdown over a whole run of blocks: entered with a
/// counter `d` between one and the number of blocks, the blocks before
/// the `d`-th only count down, the `d`-th fires on counter one and runs
/// its state's body, and the blocks after it see a non-positive counter
/// and only count down further.
proof fn lemma_blocks_dispatch(
    states: Seq<crate::ast::State>,
    ids: Seq<StateId>,
    st: MState,
    h: int,
    lt: int,
    rtape: Seq<int>,
    f: nat,
)
    requires
        st.i == 0,
        1 <= st.a <= ids.len(),
        st.stack == rtape.push(h).push(lt),
        0 <= h < 128,
        0 <= lt,
        128 * lt + h + 1 <= i64::MAX,
        ids.len() < i64::MAX as int,
        forall|k: int|
            0 <= k < spec_state_for(states, ids[st.a - 1]).transitions@.len() ==> (
            #[trigger] spec_state_for(states, ids[st.a - 1]).transitions@[k]).next_state
                <= i64::MAX,
        f >= 128 * lt + h + 2,
    ensures
        spec_run_seq(st, spec_states_code(states, ids), f) == Outcome::Done(
            {
                let s = spec_state_for(states, ids[st.a - 1]);
                match spec_find_transition(s.transitions@, h as Char) {
                    Some(t) => MState {
                        a: st.a - ids.len(),
                        i: 0,
                        stack: spec_tape_effect(t.tape_instruction, lt, h, rtape).1.push(
                            spec_tape_effect(t.tape_instruction, lt, h, rtape).0,
                        ).push(t.next_state as int),
                        ..st
                    },
                    None => MState {
                        a: st.a - ids.len(),
                        i: 0,
                        stack: rtape.push(h).push(lt).push(
                            if s.accepting {
                                0int
                            } else {
                                -1int
                            },
                        ),
                        ..st
                    },
                }
            },
        ),
    decreases ids.len(),
{
    let s = spec_state_for(states, ids[st.a - 1]);
    lemma_run_seq_append(
        st,
        spec_states_code(states, ids.drop_last()),
        spec_compile_state(spec_state_for(states, ids.last())),
        f,
    );
    if st.a == ids.len() {
        // Every earlier block skips; the last block fires on counter one.
        lemma_blocks_all_skip(states, ids.drop_last(), st, f);
        let mid = MState { a: 1, ..st };
        assert(ids.last() == ids[st.a - 1]);
        lemma_state_block_matches(mid, s, h, lt, rtape, f);
    } else {
        // The dispatched block lies in the prefix; the last block then
        // sees a non-positive counter and just decrements it.
        assert(ids.drop_last()[st.a - 1] == ids[st.a - 1]);
        lemma_blocks_dispatch(states, ids.drop_last(), st, h, lt, rtape, f);
        let mid_a = st.a - (ids.len() - 1);
        assert(mid_a <= 0);
        match spec_find_transition(s.transitions@, h as Char) {
            Some(t) => {
                let mid = MState {
                    a: mid_a,
                    i: 0,
                    stack: spec_tape_effect(t.tape_instruction, lt, h, rtape).1.push(
                        spec_tape_effect(t.tape_instruction, lt, h, rtape).0,
                    ).push(t.next_state as int),
                    ..st
                };
                lemma_state_block_skips(mid, spec_state_for(states, ids.last()), f);
            },
            None => {
                let mid = MState {
                    a: mid_a,
                    i: 0,
                    stack: rtape.push(h).push(lt).push(
                        if s.accepting {
                            0int
                        } else {
                            -1int
                        },
                    ),
                    ..st
                };
                lemma_state_block_skips(mid, spec_state_for(states, ids.last()), f);
            },
        }
    }
}

/// State dispatch by countdown when the head is the blank past the
/// written tape: as `lemma_blocks_dispatch`, with the dispatched block
/// halting on the state's verdict.
proof fn lemma_blocks_dispatch_blank(
    states: Seq<crate::ast::State>,
    ids: Seq<StateId>,
    st: MState,
    lt: int,
    f: nat,
)
    requires
        st.i == 0,
        1 <= st.a <= ids.len(),
        st.stack == seq![lt],
        !st.errors,
        spec_find_transition(spec_state_for(states, ids[st.a - 1]).transitions@, 0) is None,
        ids.len() < i64::MAX as int,
        f >= 1,
    ensures
        spec_run_seq(st, spec_states_code(states, ids), f) == Outcome::Done(
            MState {
                a: st.a - ids.len(),
                i: 0,
                stack: seq![0int].push(lt).push(
                    if spec_state_for(states, ids[st.a - 1]).accepting {
                        0int
                    } else {
                        -1int
                    },
                ),
                ..st
            },
        ),
    decreases ids.len(),
{
    let s = spec_state_for(states, ids[st.a - 1]);
    lemma_run_seq_append(
        st,
        spec_states_code(states, ids.drop_last()),
        spec_compile_state(spec_state_for(states, ids.last())),
        f,
    );
    if st.a == ids.len() {
        lemma_blocks_all_skip(states, ids.drop_last(), st, f);
        let mid = MState { a: 1, ..st };
        assert(ids.last() == ids[st.a - 1]);
        lemma_state_block_matches_blank(mid, s, lt, f);
    } else {
        assert(ids.drop_last()[st.a - 1] == ids[st.a - 1]);
        lemma_blocks_dispatch_blank(states, ids.drop_last(), st, lt, f);
        let mid = MState {
            a: st.a - (ids.len() - 1),
            i: 0,
            stack: seq![0int].push(lt).push(
                if s.accepting {
                    0int
                } else {
                    -1int
                },
            ),
            ..st
        };
        lemma_state_block_skips(mid, spec_state_for(states, ids.last()), f);
    }
}

/// One full iteration of the main dispatch loop's body when the head is
/// the blank past the written tape: no transition can match, so the
/// iteration ends with the dispatched state's verdict in `A` and the
/// blank head materialized on the stack.
pub proof fn lemma_dispatch_iteration_blank(
    states: Seq<crate::ast::State>,
    ids: Seq<StateId>,
    st: MState,
    lt: int,
    f: nat,
)
    requires
        st.i == 0,
        1 <= st.a <= ids.len(),
        st.stack == seq![lt],
        !st.errors,
        spec_find_transition(spec_state_for(states, ids[st.a - 1]).transitions@, 0) is None,
        ids.len() < i64::MAX as int,
        f >= 1,
    ensures
        spec_run_seq(st, spec_states_code(states, ids) + seq![SpecInstr::PopToActive], f)
            == Outcome::Done(
            MState {
                a: if spec_state_for(states, ids[st.a - 1]).accepting {
                    0int
                } else {
                    -1int
                },
                i: 0,
                stack: seq![0int].push(lt),
                ..st
            },
        ),
{
    lemma_blocks_dispatch_blank(states, ids, st, lt, f);
    lemma_run_seq_append(st, spec_states_code(states, ids), seq![SpecInstr::PopToActive], f);
    let s = spec_state_for(states, ids[st.a - 1]);
    let v = if s.accepting {
        0int
    } else {
        -1int
    };
    let mid = MState { a: st.a - ids.len(), i: 0, stack: seq![0int].push(lt).push(v), ..st };
    let done = MState { a: v, i: 0, stack: seq![0int].push(lt), ..st };
    assert(mid.stack.last() == v && mid.stack.drop_last() =~= done.stack);
    lemma_run_seq_step(mid, seq![SpecInstr::PopToActive], f, done);
    assert(seq![SpecInstr::PopToActive].drop_first() =~= Seq::<SpecInstr>::empty());
}

/// One full iteration of the main dispatch loop's body: from an encoded
/// machine configuration — current state id in `A`, `I = 0`, the packed
/// tape on the stack — exactly one state block executes, and the trailing
/// pop loads the next state id, or the verdict sentinel when no
/// transition matched the head, back into `A`, restoring the iteration
/// boundary invariant `I = 0` with the updated tape on the stack.
pub proof fn lemma_dispatch_iteration(
    states: Seq<crate::ast::State>,
    ids: Seq<StateId>,
    st: MState,
    h: int,
    lt: int,
    rtape: Seq<int>,
    f: nat,
)
    requires
        st.i == 0,
        1 <= st.a <= ids.len(),
        st.stack == rtape.push(h).push(lt),
        0 <= h < 128,
        0 <= lt,
        128 * lt + h + 1 <= i64::MAX,
        ids.len() < i64::MAX as int,
        forall|k: int|
            0 <= k < spec_state_for(states, ids[st.a - 1]).transitions@.len() ==> (
            #[trigger] spec_state_for(states, ids[st.a - 1]).transitions@[k]).next_state
                <= i64::MAX,
        f >= 128 * lt + h + 2,
    ensures
        spec_run_seq(st, spec_states_code(states, ids) + seq![SpecInstr::PopToActive], f)
            == Outcome::Done(
            {
                let s = spec_state_for(states, ids[st.a - 1]);
                match spec_find_transition(s.transitions@, h as Char) {
                    Some(t) => MState {
                        a: t.next_state as int,
                        i: 0,
                        stack: spec_tape_effect(t.tape_instruction, lt, h, rtape).1.push(
                            spec_tape_effect(t.tape_instruction, lt, h, rtape).0,
                        ),
                        ..st
                    },
                    None => MState {
                        a: if s.accepting {
                            0int
                        } else {
                            -1int
                        },
                        i: 0,
                        stack: rtape.push(h).push(lt),
                        ..st
                    },
                }
            },
        ),
{
    lemma_blocks_dispatch(states, ids, st, h, lt, rtape, f);
    lemma_run_seq_append(st, spec_states_code(states, ids), seq![SpecInstr::PopToActive], f);
    let s = spec_state_for(states, ids[st.a - 1]);
    match spec_find_transition(s.transitions@, h as Char) {
        Some(t) => {
            let mid = MState {
                a: st.a - ids.len(),
                i: 0,
                stack: spec_tape_effect(t.tape_instruction, lt, h, rtape).1.push(
                    spec_tape_effect(t.tape_instruction, lt, h, rtape).0,
                ).push(t.next_state as int),
                ..st
            };
            let done = MState {
                a: t.next_state as int,
                i: 0,
                stack: spec_tape_effect(t.tape_instruction, lt, h, rtape).1.push(
                    spec_tape_effect(t.tape_instruction, lt, h, rtape).0,
                ),
                ..st
            };
            assert(mid.stack.last() == t.next_state as int && mid.stack.drop_last()
                =~= done.stack);
            lemma_run_seq_step(mid, seq![SpecInstr::PopToActive], f, done);
            assert(seq![SpecInstr::PopToActive].drop_first() =~= Seq::<SpecInstr>::empty());
        },
        None => {
            let v = if s.accepting {
                0int
            } else {
                -1int
            };
            let mid = MState {
                a: st.a - ids.len(),
                i: 0,
                stack: rtape.push(h).push(lt).push(v),
                ..st
            };
            let done = MState { a: v, i: 0, stack: rtape.push(h).push(lt), ..st };
            assert(mid.stack.last() == v && mid.stack.drop_last() =~= done.stack);
            lemma_run_seq_step(mid, seq![SpecInstr::PopToActive], f, done);
            assert(seq![SpecInstr::PopToActive].drop_first() =~= Seq::<SpecInstr>::empty());
        },
    }
}

/// The transition the sweep fires is one of the state's transitions.
proof fn lemma_find_transition_is_member(trs: Seq<Transition>, c: Char)
    requires
        spec_find_transition(trs, c) is Some,
    ensures
        trs.contains(spec_find_transition(trs, c).unwrap()),
    decreases trs.len(),
{
    if trs.len() > 0 {
        if trs.last().match_char == c {
            assert(trs[trs.len() - 1] == trs.last());
        } else {
            lemma_find_transition_is_member(trs.drop_last(), c);
            let t = spec_find_transition(trs, c).unwrap();
            let k = choose|k: int| 0 <= k < trs.drop_last().len() && trs.drop_last()[k] == t;
            assert(trs[k] == t);
        }
    }
}

/// State dispatch by countdown, the non-matching case: a state block
/// entered with a counter other than one only decrements the counter, so
/// the following block sees the next count.
pub proof fn lemma_state_block_skips(st: MState, s: crate::ast::State, f: nat)
    requires
        st.i == 0,
        st.a != 1,
        st.a > i64::MIN as int,
    ensures
        spec_run_seq(st, spec_compile_state(s), f) == Outcome::Done(MState { a: st.a - 1, ..st }),
{
    let code = spec_compile_state(s);
    let st1 = MState { a: st.a - 1, ..st };
    lemma_run_seq_step(st, code, f, st1);
    assert(spec_run_instr(st1, code[1], f) == Outcome::Done(st1));
    lemma_run_seq_step(st1, code.drop_first(), f, st1);
    assert(code.drop_first().drop_first() =~= Seq::<SpecInstr>::empty());
}

/// The HALT check after a fired transition: the sweep left the sentinel
/// `I = -1`, so the check's single-shot loop does not run and the block
/// only restores `A = I = 0` for the next iteration.
pub proof fn lemma_halt_check_passes(st: MState, accepting: bool, f: nat)
    requires
        st.i == -1,
        0 <= st.a < i64::MAX as int,
    ensures
        spec_run_seq(
            st,
            seq![
                SpecInstr::Swap,
                SpecInstr::IncrActive,
                SpecInstr::While(spec_halt_body(accepting)),
                SpecInstr::SaveActive,
            ],
            f,
        ) == Outcome::Done(MState { a: 0, i: 0, ..st }),
{
    let code = seq![
        SpecInstr::Swap,
        SpecInstr::IncrActive,
        SpecInstr::While(spec_halt_body(accepting)),
        SpecInstr::SaveActive,
    ];
    let st1 = MState { a: -1, i: st.a, ..st };
    lemma_run_seq_step(st, code, f, st1);
    let st2 = MState { a: 0, i: st.a, ..st };
    lemma_run_seq_step(st1, code.drop_first(), f, st2);
    assert(spec_run_instr(st2, SpecInstr::While(spec_halt_body(accepting)), f) == Outcome::Done(
        st2,
    ));
    lemma_run_seq_step(st2, code.drop_first().drop_first(), f, st2);
    let st3 = MState { a: 0, i: 0, ..st };
    lemma_run_seq_step(st2, code.drop_first().drop_first().drop_first(), f, st3);
    assert(code.drop_first().drop_first().drop_first().drop_first()
        =~= Seq::<SpecInstr>::empty());
}

/// The HALT check when no transition matched: the sweep ran to completion
/// with the counter at the alphabet size and the head still in `I`. The
/// single-shot loop rebuilds the iteration's stack layout — left tape on
/// top of the restored head — and pushes the verdict sentinel, `0` to
/// accept or `-1` to reject, as the next state.
pub proof fn lemma_halt_check_fires(st: MState, accepting: bool, h: int, lt: int, rest: Seq<
    int,
>, f: nat)
    requires
        st.a == 128,
        st.i == h,
        0 <= h < 128,
        st.stack == rest.push(lt),
        f >= 1,
    ensures
        spec_run_seq(
            st,
            seq![
                SpecInstr::Swap,
                SpecInstr::IncrActive,
                SpecInstr::While(spec_halt_body(accepting)),
                SpecInstr::SaveActive,
            ],
            f,
        ) == Outcome::Done(
            MState {
                a: 0,
                i: 0,
                stack: rest.push(h).push(lt).push(if accepting { 0int } else { -1int }),
                ..st
            },
        ),
{
    let code = seq![
        SpecInstr::Swap,
        SpecInstr::IncrActive,
        SpecInstr::While(spec_halt_body(accepting)),
        SpecInstr::SaveActive,
    ];
    let body = spec_halt_body(accepting);
    let st1 = MState { a: h, i: 128, ..st };
    lemma_run_seq_step(st, code, f, st1);
    let st2 = MState { a: h + 1, i: 128, ..st };
    lemma_run_seq_step(st1, code.drop_first(), f, st2);

    // One round of the single-shot loop.
    let m1 = MState { a: h, i: 128, ..st };
    lemma_run_seq_step(st2, body, f, m1);
    let m2 = MState { a: 128, i: h, ..st };
    lemma_run_seq_step(m1, body.drop_first(), f, m2);
    let m3 = MState { a: lt, i: h, stack: rest, ..st };
    assert(st.stack.last() == lt && st.stack.drop_last() =~= rest);
    lemma_run_seq_step(m2, body.drop_first().drop_first(), f, m3);
    let m4 = MState { a: h, i: lt, stack: rest, ..st };
    lemma_run_seq_step(m3, body.drop_first().drop_first().drop_first(), f, m4);
    let m5 = MState { a: h, i: lt, stack: rest.push(h), ..st };
    lemma_run_seq_step(m4, body.drop_first().drop_first().drop_first().drop_first(), f, m5);
    let m6 = MState { a: lt, i: h, stack: rest.push(h), ..st };
    let b5 = body.drop_first().drop_first().drop_first().drop_first().drop_first();
    lemma_run_seq_step(m5, b5, f, m6);
    let m7 = MState { a: lt, i: h, stack: rest.push(h).push(lt), ..st };
    lemma_run_seq_step(m6, b5.drop_first(), f, m7);
    let m8 = MState { stack: m7.stack.push(0), ..m7 };
    lemma_run_seq_step(m7, b5.drop_first().drop_first(), f, m8);
    let m9 = MState { a: 0, stack: m7.stack, ..m7 };
    assert(m8.stack.last() == 0 && m8.stack.drop_last() =~= m7.stack);
    lemma_run_seq_step(m8, b5.drop_first().drop_first().drop_first(), f, m9);
    let m10 = MState { i: 0, ..m9 };
    lemma_run_seq_step(m9, b5.drop_first().drop_first().drop_first().drop_first(), f, m10);
    let b10 = b5.drop_first().drop_first().drop_first().drop_first().drop_first();
    let m_final = if accepting {
        let m11 = MState { stack: m10.stack.push(0), ..m10 };
        lemma_run_seq_step(m10, b10, f, m11);
        assert(b10.drop_first() =~= Seq::<SpecInstr>::empty());
        m11
    } else {
        let m11 = MState { a: -1, ..m10 };
        lemma_run_seq_step(m10, b10, f, m11);
        let m12 = MState { stack: m11.stack.push(-1), ..m11 };
        lemma_run_seq_step(m11, b10.drop_first(), f, m12);
        let m13 = MState { a: 0, ..m12 };
        lemma_run_seq_step(m12, b10.drop_first().drop_first(), f, m13);
        assert(b10.drop_first().drop_first().drop_first() =~= Seq::<SpecInstr>::empty());
        m13
    };
    assert(spec_run_seq(st2, body, f) == Outcome::Done(m_final));
    assert(spec_run_instr(m_final, SpecInstr::While(body), (f - 1) as nat) == Outcome::Done(
        m_final,
    ));
    assert(spec_run_instr(st2, SpecInstr::While(body), f) == Outcome::Done(m_final));
    lemma_run_seq_step(st2, code.drop_first().drop_first(), f, m_final);
    let done = MState { i: 0, ..m_final };
    lemma_run_seq_step(m_final, code.drop_first().drop_first().drop_first(), f, done);
    assert(code.drop_first().drop_first().drop_first().drop_first()
        =~= Seq::<SpecInstr>::empty());
    assert(done == MState {
        a: 0,
        i: 0,
        stack: rest.push(h).push(lt).push(if accepting { 0int } else { -1int }),
        ..st
    });
}

/// The bytes of the input, as the integers the substrate stack holds.
pub open spec fn bytes_as_ints(input: Seq<u8>) -> Seq<int> {
    input.map_values(|b: u8| b as int)
}

/// The ingestion loop: while `A` holds a byte just read, park it on the
/// stack, clear `A`, and read the next byte; at end of input the read
/// leaves `A = 0` and the loop stops.
proof fn lemma_ingest_while(st: MState, f: nat)
    requires
        1 <= st.pos <= st.input.len(),
        st.a == st.input[st.pos - 1] as int,
        st.a >= 1,
        forall|k: int| st.pos <= k < st.input.len() ==> st.input[k] >= 1,
        f >= st.input.len() - st.pos + 1,
    ensures
        spec_run_instr(st, SpecInstr::While(ingest_body()), f) == Outcome::Done(
            MState {
                a: 0,
                stack: st.stack + bytes_as_ints(st.input.subrange(st.pos - 1, st.input.len() as int)),
                pos: st.input.len() as int,
                ..st
            },
        ),
    decreases st.input.len() - st.pos,
{
    let w = SpecInstr::While(ingest_body());
    let body = ingest_body();
    let st1 = MState { stack: st.stack.push(st.a), ..st };
    lemma_run_seq_step(st, body, f, st1);
    let st2 = MState { stack: st.stack.push(st.a).push(0), ..st };
    lemma_run_seq_step(st1, body.drop_first(), f, st2);
    let st3 = MState { a: 0, stack: st.stack.push(st.a), ..st };
    assert(st2.stack.last() == 0 && st2.stack.drop_last() =~= st.stack.push(st.a));
    lemma_run_seq_step(st2, body.drop_first().drop_first(), f, st3);
    if st.pos == st.input.len() {
        // End of input: the read changes nothing and the loop exits.
        lemma_run_seq_step(st3, body.drop_first().drop_first().drop_first(), f, st3);
        assert(body.drop_first().drop_first().drop_first().drop_first()
            =~= Seq::<SpecInstr>::empty());
        assert(spec_run_seq(st, body, f) == Outcome::Done(st3));
        assert(spec_run_instr(st3, w, (f - 1) as nat) == Outcome::Done(st3));
        assert(st.stack.push(st.a) =~= st.stack + bytes_as_ints(
            st.input.subrange(st.pos - 1, st.input.len() as int),
        ));
    } else {
        let st4 = MState {
            a: st.input[st.pos] as int,
            stack: st.stack.push(st.a),
            pos: st.pos + 1,
            ..st
        };
        lemma_run_seq_step(st3, body.drop_first().drop_first().drop_first(), f, st4);
        assert(body.drop_first().drop_first().drop_first().drop_first()
            =~= Seq::<SpecInstr>::empty());
        assert(spec_run_seq(st, body, f) == Outcome::Done(st4));
        lemma_ingest_while(st4, (f - 1) as nat);
        assert(st4.stack + bytes_as_ints(st.input.subrange(st.pos, st.input.len() as int))
            =~= st.stack + bytes_as_ints(st.input.subrange(st.pos - 1, st.input.len() as int)));
        assert(spec_run_instr(st, w, f) == spec_run_instr(st4, w, (f - 1) as nat));
    }
}

/// The prelude of every lowered program: from the start state, it
/// disables errors, reads the whole input onto the stack in read order,
/// pushes the empty left tape, and counts the active variable up to the
/// initial state id. No byte is lost and nothing is printed.
pub proof fn lemma_prelude_ingests_input(input: Seq<u8>, init_id: StateId, f: nat)
    requires
        forall|k: int| 0 <= k < input.len() ==> input[k] >= 1,
        init_id <= i64::MAX,
        f >= input.len() + 1,
    ensures
        spec_run_seq(
            init_state(input),
            seq![
                SpecInstr::ToggleErrors,
                SpecInstr::ReadToActive,
                SpecInstr::While(ingest_body()),
                SpecInstr::PushZero,
            ] + incr_n(init_id as nat),
            f,
        ) == Outcome::Done(
            MState {
                a: init_id as int,
                i: 0,
                stack: bytes_as_ints(input) + seq![0],
                errors: false,
                input: input,
                pos: input.len() as int,
                output: Seq::empty(),
            },
        ),
{
    let st = init_state(input);
    let head = seq![
        SpecInstr::ToggleErrors,
        SpecInstr::ReadToActive,
        SpecInstr::While(ingest_body()),
        SpecInstr::PushZero,
    ];
    lemma_run_seq_append(st, head, incr_n(init_id as nat), f);
    let st1 = MState { errors: false, ..st };
    lemma_run_seq_step(st, head, f, st1);
    if input.len() == 0 {
        let st2 = st1;
        lemma_run_seq_step(st1, head.drop_first(), f, st2);
        assert(spec_run_instr(st2, SpecInstr::While(ingest_body()), f) == Outcome::Done(st2));
        lemma_run_seq_step(st2, head.drop_first().drop_first(), f, st2);
        let st3 = MState { stack: st.stack.push(0), errors: false, ..st };
        lemma_run_seq_step(st2, head.drop_first().drop_first().drop_first(), f, st3);
        assert(head.drop_first().drop_first().drop_first().drop_first()
            =~= Seq::<SpecInstr>::empty());
        assert(spec_run_seq(st, head, f) == Outcome::Done(st3));
        lemma_incr_n_run(st3, init_id as nat, f);
        assert(st3.stack =~= bytes_as_ints(input) + seq![0]);
    } else {
        let st2 = MState { a: input[0] as int, pos: 1, errors: false, ..st };
        lemma_run_seq_step(st1, head.drop_first(), f, st2);
        lemma_ingest_while(st2, f);
        let st3 = MState {
            a: 0,
            stack: st.stack + bytes_as_ints(input.subrange(0, input.len() as int)),
            pos: input.len() as int,
            errors: false,
            ..st
        };
        assert(input.subrange(0, input.len() as int) =~= input);
        lemma_run_seq_step(st2, head.drop_first().drop_first(), f, st3);
        let st4 = MState { stack: st3.stack.push(0), ..st3 };
        lemma_run_seq_step(st3, head.drop_first().drop_first().drop_first(), f, st4);
        assert(head.drop_first().drop_first().drop_first().drop_first()
            =~= Seq::<SpecInstr>::empty());
        assert(spec_run_seq(st, head, f) == Outcome::Done(st4));
        lemma_incr_n_run(st4, init_id as nat, f);
        assert(st4.stack =~= bytes_as_ints(input) + seq![0]);
    }
}

/// Running the printing code for one string appends exactly that string's
/// bytes to the output and restores `A = 0`.
proof fn lemma_print_run(st: MState, text: Seq<u8>, f: nat)
    requires
        st.a == 0,
    ensures
        spec_run_seq(st, spec_print_bytes(text), f) == Outcome::Done(
            MState { output: st.output + text, ..st },
        ),
    decreases text.len(),
{
    if text.len() == 0 {
        assert(spec_print_bytes(text) =~= Seq::<SpecInstr>::empty());
        assert(st.output + text =~= st.output);
    } else {
        let b = text.last();
        lemma_print_run(st, text.drop_last(), f);
        let mid = MState { output: st.output + text.drop_last(), ..st };
        lemma_run_seq_append(
            st,
            spec_print_bytes(text.drop_last()),
            incr_n(b as nat) + seq![
                SpecInstr::PrintActive,
                SpecInstr::PushZero,
                SpecInstr::PopToActive,
            ],
            f,
        );
        assert(spec_print_bytes(text) =~= spec_print_bytes(text.drop_last()) + (incr_n(b as nat)
            + seq![SpecInstr::PrintActive, SpecInstr::PushZero, SpecInstr::PopToActive]));
        lemma_run_seq_append(
            mid,
            incr_n(b as nat),
            seq![SpecInstr::PrintActive, SpecInstr::PushZero, SpecInstr::PopToActive],
            f,
        );
        lemma_incr_n_run(mid, b as nat, f);
        let m1 = MState { a: b as int, output: st.output + text.drop_last(), ..st };
        let tail = seq![SpecInstr::PrintActive, SpecInstr::PushZero, SpecInstr::PopToActive];
        assert(low_byte(b as int) == b);
        let m2 = MState { output: (st.output + text.drop_last()).push(b), ..m1 };
        lemma_run_seq_step(m1, tail, f, m2);
        let m3 = MState { stack: m2.stack.push(0), ..m2 };
        lemma_run_seq_step(m2, tail.drop_first(), f, m3);
        let m4 = MState { a: 0, stack: m2.stack, ..m2 };
        assert(m3.stack.last() == 0 && m3.stack.drop_last() =~= m2.stack);
        lemma_run_seq_step(m3, tail.drop_first().drop_first(), f, m4);
        assert(tail.drop_first().drop_first().drop_first() =~= Seq::<SpecInstr>::empty());
        assert(spec_run_seq(m1, tail, f) == Outcome::Done(m4));
        assert(m4 == MState { output: st.output + text, ..st }) by {
            assert((st.output + text.drop_last()).push(b) =~= st.output + text);
        }
    }
}

/// The postlude of every lowered program. When the main loop has halted —
/// the active variable holds the verdict sentinel, `0` for ACCEPT or `-1`
/// for REJECT, and the inactive variable is `0` — the postlude appends
/// exactly `ACCEPT` or exactly `REJECT`, newline included, to the output.
pub proof fn lemma_postlude_prints_verdict(st: MState, f: nat)
    requires
        st.i == 0,
        st.a == 0 || st.a == -1,
    ensures
        spec_run_seq(
            st,
            seq![
                SpecInstr::If(spec_print_bytes(accept_bytes())),
                SpecInstr::IncrActive,
                SpecInstr::If(spec_print_bytes(reject_bytes())),
            ],
            f,
        ) == Outcome::Done(
            MState {
                a: st.a + 1,
                output: st.output + (if st.a == 0 {
                    accept_bytes()
                } else {
                    reject_bytes()
                }),
                ..st
            },
        ),
{
    let code = seq![
        SpecInstr::If(spec_print_bytes(accept_bytes())),
        SpecInstr::IncrActive,
        SpecInstr::If(spec_print_bytes(reject_bytes())),
    ];
    if st.a == 0 {
        lemma_print_run(st, accept_bytes(), f);
        let m1 = MState { output: st.output + accept_bytes(), ..st };
        lemma_run_seq_step(st, code, f, m1);
        let m2 = MState { a: 1, ..m1 };
        lemma_run_seq_step(m1, code.drop_first(), f, m2);
        assert(spec_run_instr(m2, code.drop_first().drop_first()[0], f) == Outcome::Done(m2));
        lemma_run_seq_step(m2, code.drop_first().drop_first(), f, m2);
        assert(code.drop_first().drop_first().drop_first() =~= Seq::<SpecInstr>::empty());
    } else {
        let m1 = st;
        lemma_run_seq_step(st, code, f, m1);
        let m2 = MState { a: 0, ..m1 };
        lemma_run_seq_step(m1, code.drop_first(), f, m2);
        lemma_print_run(m2, reject_bytes(), f);
        let m3 = MState { output: st.output + reject_bytes(), ..m2 };
        lemma_run_seq_step(m2, code.drop_first().drop_first(), f, m3);
        assert(code.drop_first().drop_first().drop_first() =~= Seq::<SpecInstr>::empty());
        assert(m3 == MState { a: st.a + 1, output: st.output + reject_bytes(), ..st });
    }
}

/// For every 7-bit character `c`, the lowering of `Write(c)` replaces the
/// head with exactly `c` and touches nothing else: not the packed left
/// tape, not the rest of the right tape.
pub proof fn lemma_write_places_char(st: MState, c: Char, h: int, rest: Seq<int>)
    requires
        c < 128,
        st.stack == rest.push(h),
    ensures
        reaches(
            st,
            spec_compile_tape(TapeInstruction::Write(c)),
            MState { a: c as int, stack: rest.push(c as int), ..st },
        ),
{
    lemma_write_run(st, c, h, rest, 0);
    assert(spec_run_seq(st, spec_compile_tape(TapeInstruction::Write(c)), 0) == Outcome::Done(
        MState { a: c as int, stack: rest.push(c as int), ..st },
    ));
}

/// Tape-instruction round trip: from any packed left tape `LT` and head
/// `H` that fit the machine word, a `Right` followed by a `Left` with no
/// intervening writes restores `LT` and `H` exactly, provided the
/// immediate right neighbor of the head was the blank.
pub proof fn lemma_right_left_round_trip(st: MState, h: int, rest: Seq<int>)
    requires
        0 <= st.i,
        0 <= h < 128,
        st.stack == rest.push(h),
        rest.len() == 0 || rest.last() == 0,
        128 * st.i + h <= i64::MAX - 1,
    ensures
        reaches(
            st,
            spec_compile_tape(TapeInstruction::Right) + spec_compile_tape(TapeInstruction::Left),
            MState { a: h, i: st.i, stack: st.stack, ..st },
        ),
{
    let lt = st.i;
    let packed = 128 * lt + h;
    assert(lt <= packed && h <= packed) by (nonlinear_arith)
        requires
            lt >= 0,
            0 <= h,
            packed == 128 * lt + h,
    ;
    let fm = (packed + 1) as nat;
    lemma_right_run(st, h, rest, fm);
    let m = MState { a: 0, i: packed, stack: rest, ..st };
    lemma_div128_bounds(packed);
    lemma_left_run(m, fm);
    assert(packed / 128 == lt && packed % 128 == h) by {
        lemma_fundamental_div_mod_converse(packed, 128, lt, h);
    }
    let target = MState { a: h, i: lt, stack: rest.push(h), ..st };
    lemma_run_seq_append(
        st,
        spec_compile_tape(TapeInstruction::Right),
        spec_compile_tape(TapeInstruction::Left),
        fm,
    );
    assert(spec_run_seq(
        st,
        spec_compile_tape(TapeInstruction::Right) + spec_compile_tape(TapeInstruction::Left),
        fm,
    ) == Outcome::Done(target));
    assert(target == MState { a: h, i: st.i, stack: st.stack, ..st });
}

} // verus!
