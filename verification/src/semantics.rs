//! The mathematical semantics of the substrate: a ghost mirror of the
//! instruction tree and a fuel-bounded big-step evaluation function over a
//! ghost machine state. The executable interpreter in `stack` is proved to
//! return exactly what this spec says.
//!
//! Fuel is consumed only by `While` iterations, one unit per iteration, so
//! a run either completes, faults, or exhausts its step budget; evaluation
//! is a total function of the start state, the program and the budget.

use vstd::prelude::*;
use crate::error::SmError;
use crate::stack::SmInstruction;
use crate::utils::spec_int_bytes;

verus! {

/// The mathematical value of a substrate instruction: the same tree as
/// `SmInstruction`, with sequences for the structured bodies.
pub ghost enum SpecInstr {
    ReadToActive,
    PrintActive,
    PrintState,
    IncrActive,
    DecrActive,
    SaveActive,
    Swap,
    PushZero,
    PushActive,
    PopToActive,
    ToggleErrors,
    If(Seq<SpecInstr>),
    While(Seq<SpecInstr>),
    Comment(Seq<char>),
    InlineComment(Box<SpecInstr>, Seq<char>),
    DebugPrint(Seq<char>, bool),
}

/// The mathematical value of one executable instruction.
pub open spec fn deep_instr(instr: SmInstruction) -> SpecInstr
    decreases instr, 0int,
{
    match instr {
        SmInstruction::ReadToActive => SpecInstr::ReadToActive,
        SmInstruction::PrintActive => SpecInstr::PrintActive,
        SmInstruction::PrintState => SpecInstr::PrintState,
        SmInstruction::IncrActive => SpecInstr::IncrActive,
        SmInstruction::DecrActive => SpecInstr::DecrActive,
        SmInstruction::SaveActive => SpecInstr::SaveActive,
        SmInstruction::Swap => SpecInstr::Swap,
        SmInstruction::PushZero => SpecInstr::PushZero,
        SmInstruction::PushActive => SpecInstr::PushActive,
        SmInstruction::PopToActive => SpecInstr::PopToActive,
        SmInstruction::ToggleErrors => SpecInstr::ToggleErrors,
        SmInstruction::If(body) => SpecInstr::If(deep_instrs(body@)),
        SmInstruction::While(body) => SpecInstr::While(deep_instrs(body@)),
        SmInstruction::Comment(text) => SpecInstr::Comment(text@),
        SmInstruction::InlineComment(inner, text) => SpecInstr::InlineComment(
            Box::new(deep_instr(*inner)),
            text@,
        ),
        SmInstruction::DebugPrint(text, with_state) => SpecInstr::DebugPrint(text@, with_state),
    }
}

/// The mathematical values of a sequence of executable instructions.
pub open spec fn deep_instrs(instrs: Seq<SmInstruction>) -> Seq<SpecInstr>
    decreases instrs, 1int,
{
    Seq::new(
        instrs.len(),
        |k: int|
            if 0 <= k < instrs.len() {
                deep_instr(instrs[k])
            } else {
                arbitrary()
            },
    )
}

impl DeepView for SmInstruction {
    type V = SpecInstr;

    open spec fn deep_view(&self) -> SpecInstr {
        deep_instr(*self)
    }
}

/// Deep views distribute over concatenation.
pub broadcast proof fn lemma_deep_instrs_concat(a: Seq<SmInstruction>, b: Seq<SmInstruction>)
    ensures
        #[trigger] deep_instrs(a + b) == deep_instrs(a) + deep_instrs(b),
{
    assert(deep_instrs(a + b) =~= deep_instrs(a) + deep_instrs(b));
}

/// Deep views distribute over appending one instruction.
pub broadcast proof fn lemma_deep_instrs_push(a: Seq<SmInstruction>, x: SmInstruction)
    ensures
        #[trigger] deep_instrs(a.push(x)) == deep_instrs(a).push(deep_instr(x)),
{
    assert(deep_instrs(a.push(x)) =~= deep_instrs(a).push(deep_instr(x)));
}

/// The nesting depth of one instruction: `1` for a leaf, one more than
/// the body's depth for the structured instructions.
pub open spec fn instr_depth(instr: SpecInstr) -> nat
    decreases instr, 0int,
{
    match instr {
        SpecInstr::If(body) => 1 + seq_depth(body),
        SpecInstr::While(body) => 1 + seq_depth(body),
        SpecInstr::InlineComment(inner, _) => instr_depth(*inner),
        _ => 1,
    }
}

/// The nesting depth of an instruction sequence: the deepest element.
pub open spec fn seq_depth(instrs: Seq<SpecInstr>) -> nat
    decreases instrs, 1int,
{
    if instrs.len() == 0 {
        0
    } else {
        let rest = seq_depth(instrs.drop_first());
        if instr_depth(instrs[0]) >= rest {
            instr_depth(instrs[0])
        } else {
            rest
        }
    }
}

/// The depth of a concatenation is the deeper of the two parts.
pub proof fn lemma_seq_depth_concat(a: Seq<SpecInstr>, b: Seq<SpecInstr>)
    ensures
        seq_depth(a + b) == (if seq_depth(a) >= seq_depth(b) {
            seq_depth(a)
        } else {
            seq_depth(b)
        }),
    decreases a.len(),
{
    if a.len() == 0 {
        assert(a + b =~= b);
    } else {
        assert((a + b)[0] == a[0]);
        assert((a + b).drop_first() =~= a.drop_first() + b);
        lemma_seq_depth_concat(a.drop_first(), b);
    }
}

/// No element of a sequence is deeper than the sequence.
pub proof fn lemma_seq_depth_element(instrs: Seq<SpecInstr>, k: int)
    requires
        0 <= k < instrs.len(),
    ensures
        instr_depth(instrs[k]) <= seq_depth(instrs),
    decreases instrs.len(),
{
    if k > 0 {
        lemma_seq_depth_element(instrs.drop_first(), k - 1);
    }
}

/// The full state of the substrate machine, as mathematical values:
/// the two registers, the stack (top at the end), the error flag, the
/// remaining input, and the output written so far.
pub ghost struct MState {
    /// The active variable `A`.
    pub a: int,
    /// The inactive variable `I`.
    pub i: int,
    /// The stack `S`; the top is the last element.
    pub stack: Seq<int>,
    /// Whether errors are enabled (they are, initially).
    pub errors: bool,
    /// The whole input byte stream.
    pub input: Seq<u8>,
    /// How many input bytes have been consumed.
    pub pos: int,
    /// Every byte written to the output so far.
    pub output: Seq<u8>,
}

/// The outcome of evaluating a program fragment from a state: the machine
/// reaches a new state, or it stops on a fault (an exhausted step budget
/// counts as the fault `OutOfFuel`).
pub ghost enum Outcome {
    Done(MState),
    Fail(SmError),
}

/// The low byte of the active variable, as emitted by `PrintActive`.
pub open spec fn low_byte(a: int) -> u8 {
    (a % 256) as u8
}

/// The stack items as `PrintState` renders them: top first, comma
/// separated.
pub open spec fn spec_dump_items(stack: Seq<int>) -> Seq<u8>
    decreases stack.len(),
{
    if stack.len() == 0 {
        Seq::empty()
    } else if stack.len() == 1 {
        spec_int_bytes(stack[0])
    } else {
        spec_dump_items(stack.drop_first()) + seq![44u8] + spec_int_bytes(stack[0])
    }
}

/// The full state dump written by `PrintState` (`A=` is bytes 65, 61, and
/// so on; every piece of fixed text is 7-bit).
pub open spec fn spec_dump_bytes(st: MState) -> Seq<u8> {
    seq![65u8, 61u8] + spec_int_bytes(st.a) + seq![32u8, 73u8, 61u8] + spec_int_bytes(st.i) + seq![
        32u8,
        83u8,
        61u8,
        91u8,
    ] + spec_dump_items(st.stack) + seq![93u8, 10u8]
}

/// One evaluation step of a single instruction, with `fuel` bounding the
/// number of `While` iterations available.
pub open spec fn spec_run_instr(st: MState, instr: SpecInstr, fuel: nat) -> Outcome
    decreases fuel, instr, 0int,
{
    match instr {
        SpecInstr::ReadToActive => Outcome::Done(
            if st.pos < st.input.len() {
                MState { a: st.input[st.pos] as int, pos: st.pos + 1, ..st }
            } else {
                st
            },
        ),
        SpecInstr::PrintActive => Outcome::Done(
            MState { output: st.output.push(low_byte(st.a)), ..st },
        ),
        SpecInstr::PrintState => Outcome::Done(
            MState { output: st.output + spec_dump_bytes(st), ..st },
        ),
        SpecInstr::IncrActive => if st.a == i64::MAX as int {
            Outcome::Fail(SmError::Overflow)
        } else {
            Outcome::Done(MState { a: st.a + 1, ..st })
        },
        SpecInstr::DecrActive => if st.a == i64::MIN as int {
            Outcome::Fail(SmError::Overflow)
        } else {
            Outcome::Done(MState { a: st.a - 1, ..st })
        },
        SpecInstr::SaveActive => Outcome::Done(MState { i: st.a, ..st }),
        SpecInstr::Swap => Outcome::Done(MState { a: st.i, i: st.a, ..st }),
        SpecInstr::PushZero => Outcome::Done(MState { stack: st.stack.push(0), ..st }),
        SpecInstr::PushActive => Outcome::Done(MState { stack: st.stack.push(st.a), ..st }),
        SpecInstr::PopToActive => if st.stack.len() > 0 {
            Outcome::Done(MState { a: st.stack.last(), stack: st.stack.drop_last(), ..st })
        } else if st.errors {
            Outcome::Fail(SmError::PopOnEmptyStack)
        } else {
            Outcome::Done(MState { a: 0, ..st })
        },
        SpecInstr::ToggleErrors => Outcome::Done(MState { errors: !st.errors, ..st }),
        SpecInstr::If(body) => if st.a == st.i {
            spec_run_seq(st, body, fuel)
        } else {
            Outcome::Done(st)
        },
        SpecInstr::While(body) => if st.a <= 0 {
            Outcome::Done(st)
        } else if fuel == 0 {
            Outcome::Fail(SmError::OutOfFuel)
        } else {
            match spec_run_seq(st, body, fuel) {
                Outcome::Done(st2) => spec_run_instr(st2, instr, (fuel - 1) as nat),
                Outcome::Fail(e) => Outcome::Fail(e),
            }
        },
        SpecInstr::Comment(_) => Outcome::Done(st),
        SpecInstr::InlineComment(inner, _) => spec_run_instr(st, *inner, fuel),
        SpecInstr::DebugPrint(_, _) => Outcome::Done(st),
    }
}

/// Evaluation of an instruction sequence, left to right, stopping at the
/// first fault.
pub open spec fn spec_run_seq(st: MState, instrs: Seq<SpecInstr>, fuel: nat) -> Outcome
    decreases fuel, instrs, 1int,
{
    if instrs.len() == 0 {
        Outcome::Done(st)
    } else {
        match spec_run_instr(st, instrs[0], fuel) {
            Outcome::Done(st2) => spec_run_seq(st2, instrs.subrange(1, instrs.len() as int), fuel),
            Outcome::Fail(e) => Outcome::Fail(e),
        }
    }
}

/// An outcome that no larger step budget can change: the machine either
/// completed or stopped on a genuine fault, rather than running out of
/// budget.
pub open spec fn settled(o: Outcome) -> bool {
    match o {
        Outcome::Done(_) => true,
        Outcome::Fail(e) => e != SmError::OutOfFuel,
    }
}

/// Fuel monotonicity for one instruction: a settled outcome is stable
/// under any larger step budget.
pub proof fn lemma_fuel_mono_instr(st: MState, instr: SpecInstr, f1: nat, f2: nat)
    requires
        f1 <= f2,
        settled(spec_run_instr(st, instr, f1)),
    ensures
        spec_run_instr(st, instr, f2) == spec_run_instr(st, instr, f1),
    decreases f1, instr, 0int,
{
    match instr {
        SpecInstr::If(body) => {
            if st.a == st.i {
                lemma_fuel_mono_seq(st, body, f1, f2);
            }
        },
        SpecInstr::While(body) => {
            if st.a > 0 {
                match spec_run_seq(st, body, f1) {
                    Outcome::Done(st2) => {
                        lemma_fuel_mono_seq(st, body, f1, f2);
                        lemma_fuel_mono_instr(st2, instr, (f1 - 1) as nat, (f2 - 1) as nat);
                    },
                    Outcome::Fail(e) => {
                        if e != SmError::OutOfFuel {
                            lemma_fuel_mono_seq(st, body, f1, f2);
                        }
                    },
                }
            }
        },
        SpecInstr::InlineComment(inner, _) => {
            lemma_fuel_mono_instr(st, *inner, f1, f2);
        },
        _ => (),
    }
}

/// Fuel monotonicity for an instruction sequence.
pub proof fn lemma_fuel_mono_seq(st: MState, instrs: Seq<SpecInstr>, f1: nat, f2: nat)
    requires
        f1 <= f2,
        settled(spec_run_seq(st, instrs, f1)),
    ensures
        spec_run_seq(st, instrs, f2) == spec_run_seq(st, instrs, f1),
    decreases f1, instrs, 1int,
{
    if instrs.len() > 0 {
        match spec_run_instr(st, instrs[0], f1) {
            Outcome::Done(st2) => {
                lemma_fuel_mono_instr(st, instrs[0], f1, f2);
                lemma_fuel_mono_seq(st2, instrs.subrange(1, instrs.len() as int), f1, f2);
            },
            Outcome::Fail(e) => {
                lemma_fuel_mono_instr(st, instrs[0], f1, f2);
            },
        }
    }
}

/// The interpreter is deterministic: from one state, one program has at
/// most one completed outcome, whatever step budgets witness it.
pub proof fn lemma_run_deterministic(
    st: MState,
    instrs: Seq<SpecInstr>,
    f1: nat,
    f2: nat,
    s1: MState,
    s2: MState,
)
    requires
        spec_run_seq(st, instrs, f1) == Outcome::Done(s1),
        spec_run_seq(st, instrs, f2) == Outcome::Done(s2),
    ensures
        s1 == s2,
{
    if f1 <= f2 {
        lemma_fuel_mono_seq(st, instrs, f1, f2);
    } else {
        lemma_fuel_mono_seq(st, instrs, f2, f1);
    }
}

/// Every instruction except `Swap` and `SaveActive` (and the two
/// structured ones, whose bodies may contain them) leaves the inactive
/// variable unchanged.
pub proof fn lemma_inactive_preserved(st: MState, instr: SpecInstr, fuel: nat, st2: MState)
    requires
        !(instr matches SpecInstr::Swap),
        !(instr matches SpecInstr::SaveActive),
        !(instr matches SpecInstr::If(_)),
        !(instr matches SpecInstr::While(_)),
        !(instr matches SpecInstr::InlineComment(_, _)),
        spec_run_instr(st, instr, fuel) == Outcome::Done(st2),
    ensures
        st2.i == st.i,
{
}

/// `Swap` exchanges the two variables and changes nothing else.
pub proof fn lemma_swap_exchanges(st: MState, fuel: nat)
    ensures
        spec_run_instr(st, SpecInstr::Swap, fuel) == Outcome::Done(
            MState { a: st.i, i: st.a, ..st },
        ),
{
}

/// With errors disabled, `PopActive` on an empty stack sets the active
/// variable to `0` and leaves the stack empty.
pub proof fn lemma_pop_empty_without_errors(st: MState, fuel: nat)
    requires
        !st.errors,
        st.stack.len() == 0,
    ensures
        spec_run_instr(st, SpecInstr::PopToActive, fuel) == Outcome::Done(MState { a: 0, ..st }),
{
}

/// `n` more rounds of the body suffice for the loop to observe a
/// non-positive active variable.
pub open spec fn spec_while_exits(st: MState, body: Seq<SpecInstr>, n: nat) -> bool
    decreases n,
{
    st.a <= 0 || (n > 0 && exists|f: nat, st2: MState|
        spec_run_seq(st, body, f) == Outcome::Done(st2) && spec_while_exits(
            st2,
            body,
            (n - 1) as nat,
        ))
}

proof fn lemma_while_done_exits(st: MState, body: Seq<SpecInstr>, f: nat, st2: MState)
    requires
        spec_run_instr(st, SpecInstr::While(body), f) == Outcome::Done(st2),
    ensures
        exists|n: nat| spec_while_exits(st, body, n),
    decreases f,
{
    if st.a <= 0 {
        assert(spec_while_exits(st, body, 0));
    } else {
        match spec_run_seq(st, body, f) {
            Outcome::Done(stm) => {
                lemma_while_done_exits(stm, body, (f - 1) as nat, st2);
                let n = choose|n: nat| spec_while_exits(stm, body, n);
                assert(spec_run_seq(st, body, f) == Outcome::Done(stm) && spec_while_exits(
                    stm,
                    body,
                    n,
                ));
                assert(spec_while_exits(st, body, n + 1));
            },
            Outcome::Fail(_) => {
                assert(false);
            },
        }
    }
}

proof fn lemma_while_exits_done(st: MState, body: Seq<SpecInstr>, n: nat)
    requires
        spec_while_exits(st, body, n),
    ensures
        exists|f: nat, st2: MState|
            spec_run_instr(st, SpecInstr::While(body), f) == Outcome::Done(st2),
    decreases n,
{
    let w = SpecInstr::While(body);
    if st.a <= 0 {
        assert(spec_run_instr(st, w, 0) == Outcome::Done(st));
    } else {
        let (f1, stm) = choose|f1: nat, stm: MState|
            spec_run_seq(st, body, f1) == Outcome::Done(stm) && spec_while_exits(
                stm,
                body,
                (n - 1) as nat,
            );
        lemma_while_exits_done(stm, body, (n - 1) as nat);
        let (f2, st2) = choose|f2: nat, st2: MState|
            spec_run_instr(stm, w, f2) == Outcome::Done(st2);
        let fm = if f1 <= f2 {
            f2
        } else {
            f1
        };
        lemma_fuel_mono_seq(st, body, f1, fm + 1);
        lemma_fuel_mono_instr(stm, w, f2, fm);
        assert(spec_run_instr(st, w, fm + 1) == Outcome::Done(st2));
    }
}

/// A `While` loop terminates normally exactly when repeating its body
/// eventually drives the active variable to `0` or below.
pub proof fn lemma_while_terminates_iff(st: MState, body: Seq<SpecInstr>)
    ensures
        (exists|f: nat, st2: MState|
            spec_run_instr(st, SpecInstr::While(body), f) == Outcome::Done(st2)) <==> (exists|
            n: nat,
        |
            spec_while_exits(st, body, n)),
{
    if exists|f: nat, st2: MState|
        spec_run_instr(st, SpecInstr::While(body), f) == Outcome::Done(st2) {
        let (f, st2) = choose|f: nat, st2: MState|
            spec_run_instr(st, SpecInstr::While(body), f) == Outcome::Done(st2);
        lemma_while_done_exits(st, body, f, st2);
    }
    if exists|n: nat| spec_while_exits(st, body, n) {
        let n = choose|n: nat| spec_while_exits(st, body, n);
        lemma_while_exits_done(st, body, n);
    }
}

/// The machine state at the start of a run on the given input.
pub open spec fn init_state(input: Seq<u8>) -> MState {
    MState {
        a: 0,
        i: 0,
        stack: Seq::empty(),
        errors: true,
        input: input,
        pos: 0,
        output: Seq::empty(),
    }
}

} // verus!
