//! The Turing machine facade: compiles a machine description into a
//! substrate program and runs it against an input string.
//!
//! The input is supplied pre-reversed (leftmost tape character last), so
//! that after ingestion the true leftmost character sits on top of the
//! substrate stack, directly under the head. Every byte must be a 7-bit
//! character other than the blank `0`.

use vstd::prelude::*;
use crate::ast::{Program, ALPHABET_SIZE};
use crate::compile::{lemma_lowered_program_finite, spec_compile_program, Compile};
use crate::emit::{render_seq_into, spec_render_seq};
use crate::error::{CompilerErrors, InputError, RunError};
use crate::semantics::{deep_instrs, init_state, seq_depth, spec_run_seq, Outcome, SpecInstr};
use crate::stack::{SmInstruction, StackMachine};
use crate::validate::{spec_program_errors, spec_wf};

verus! {

/// One error per offending input position: a byte outside the 7-bit range
/// or the forbidden blank character.
pub open spec fn spec_input_errors(input: Seq<u8>) -> Seq<InputError>
    decreases input.len(),
{
    if input.len() == 0 {
        Seq::empty()
    } else {
        spec_input_errors(input.drop_last()) + (if input.last() >= 128 {
            seq![InputError::NotAscii { index: (input.len() - 1) as usize }]
        } else if input.last() == 0 {
            seq![InputError::Blank { index: (input.len() - 1) as usize }]
        } else {
            Seq::<InputError>::empty()
        })
    }
}

/// A compiled Turing machine: a substrate program that simulates the
/// described machine and prints the verdict.
pub struct TuringMachine {
    instructions: Vec<SmInstruction>,
}

impl TuringMachine {
    /// Every compiled program is a tree whose structured blocks nest at
    /// most five levels deep.
    #[verifier::type_invariant]
    closed spec fn bounded_depth(self) -> bool {
        seq_depth(deep_instrs(self.instructions@)) <= 5
    }

    /// The mathematical value of the compiled substrate program.
    pub closed spec fn spec_instructions(&self) -> Seq<SpecInstr> {
        deep_instrs(self.instructions@)
    }

    /// Validates and lowers a machine description. A well-formed program
    /// compiles to exactly the program the lowering spec describes; any
    /// other description comes back as the full list of faults.
    pub fn new(program: Program) -> (r: Result<TuringMachine, CompilerErrors>)
        ensures
            match r {
                Ok(tm) => spec_wf(program) && tm.spec_instructions() == spec_compile_program(
                    program,
                ),
                Err(es) => !spec_wf(program) && es.0.deep_view() == spec_program_errors(program)
                    && es.0@.len() > 0,
            },
    {
        match program.validate_into() {
            Ok(valid) => {
                let instructions = valid.compile();
                proof {
                    lemma_lowered_program_finite(valid.spec_program());
                }
                Ok(TuringMachine { instructions })
            },
            Err(es) => Err(es),
        }
    }

    /// Renders the compiled substrate program as text: one instruction
    /// per line, blocks bracketed and tab-indented per nesting level.
    pub fn emit(&self) -> (s: String)
        ensures
            s@ == spec_render_seq(self.spec_instructions(), 0),
    {
        proof {
            use_type_invariant(self);
        }
        let mut out = String::new();
        render_seq_into(&self.instructions, &mut out, 0);
        out
    }

    /// Borrows the compiled substrate program.
    pub fn instructions(&self) -> (r: &Vec<SmInstruction>)
        ensures
            deep_instrs(r@) == self.spec_instructions(),
    {
        &self.instructions
    }

    /// Runs the compiled machine on the given (pre-reversed) input bytes
    /// and returns everything it wrote. The input is rejected up front,
    /// with one error per offending position, when any byte is outside
    /// the 7-bit range or is the blank character; otherwise the machine
    /// executes and the output is exactly what the substrate semantics
    /// gives for this program on this input. When the described machine
    /// halts on the input, that output is its verdict
    /// (`simulation::lemma_any_completed_run_prints_verdict`); whether
    /// the call returns at all on a machine that never halts is not
    /// stated.
    #[verifier::loop_isolation(false)]
    pub fn run_with_output(&self, input: Vec<u8>) -> (r: Result<Vec<u8>, RunError>)
        ensures
            match r {
                Ok(out) => spec_input_errors(input@).len() == 0 && (match spec_run_seq(
                    init_state(input@),
                    self.spec_instructions(),
                    u64::MAX as nat,
                ) {
                    Outcome::Done(st) => out@ == st.output,
                    Outcome::Fail(_) => false,
                }),
                Err(RunError::InvalidInput(es)) => es@ == spec_input_errors(input@) && es@.len()
                    > 0,
                Err(RunError::Machine(f)) => spec_input_errors(input@).len() == 0 && spec_run_seq(
                    init_state(input@),
                    self.spec_instructions(),
                    u64::MAX as nat,
                ) == Outcome::Fail(f),
            },
    {
        let mut errs: Vec<InputError> = Vec::new();
        let mut k: usize = 0;
        proof {
            assert(input@.take(0) =~= Seq::<u8>::empty());
            assert(errs@ =~= spec_input_errors(input@.take(0)));
        }
        while k < input.len()
            invariant
                k <= input@.len(),
                errs@ == spec_input_errors(input@.take(k as int)),
            decreases input@.len() - k,
        {
            let b = input[k];
            if b >= ALPHABET_SIZE {
                errs.push(InputError::NotAscii { index: k });
            } else if b == 0 {
                errs.push(InputError::Blank { index: k });
            }
            k = k + 1;
            proof {
                let taken = input@.take(k as int);
                assert(taken.drop_last() =~= input@.take(k as int - 1));
                assert(taken.last() == input@[k as int - 1]);
                assert(errs@ =~= spec_input_errors(taken));
            }
        }
        proof {
            assert(input@.take(input@.len() as int) =~= input@);
        }
        if errs.len() > 0 {
            return Err(RunError::InvalidInput(errs));
        }
        let mut machine = StackMachine::new(input);
        match machine.run(&self.instructions) {
            Ok(()) => Ok(machine.into_output()),
            Err(e) => Err(RunError::Machine(e)),
        }
    }
}

} // verus!
