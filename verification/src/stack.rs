//! The substrate instruction set and its interpreter: a machine with two
//! variables, one stack, and structural control flow. The interpreter is
//! proved to return exactly what the big-step spec in `semantics` says.

use vstd::prelude::*;
use crate::error::SmError;
use crate::semantics::{
    deep_instr, deep_instrs, init_state, low_byte, spec_dump_bytes, spec_dump_items,
    spec_run_instr, spec_run_seq, MState, Outcome, SpecInstr,
};
use crate::utils::{push_int_bytes, spec_int_bytes};

verus! {

/// One substrate instruction. `If` and `While` hold sub-sequences of
/// instructions, so a program is a finite tree; there is no program
/// counter and no jump.
#[derive(Debug)]
pub enum SmInstruction {
    /// Reads one byte from input into the active variable. At end of
    /// input this does nothing, which lowered programs rely on.
    ReadToActive,
    /// Emits the low byte of the active variable to output.
    PrintActive,
    /// Emits a human-readable dump of both variables and the stack.
    PrintState,
    /// Increments the active variable.
    IncrActive,
    /// Decrements the active variable.
    DecrActive,
    /// Copies the active variable to the inactive variable.
    SaveActive,
    /// Swaps the active and inactive variables.
    Swap,
    /// Pushes `0` onto the stack.
    PushZero,
    /// Pushes the active variable onto the stack.
    PushActive,
    /// Pops the top of the stack into the active variable. On an empty
    /// stack this is a fault when errors are enabled, and yields `0` when
    /// they are disabled.
    PopToActive,
    /// Flips the error flag (errors start enabled).
    ToggleErrors,
    /// Runs the body iff the two variables are equal.
    If(Vec<SmInstruction>),
    /// Runs the body repeatedly while the active variable is positive.
    While(Vec<SmInstruction>),
    /// A standalone comment: a zero-effect instruction.
    Comment(String),
    /// An instruction with a comment attached; runs the instruction.
    InlineComment(Box<SmInstruction>, String),
    /// A debug marker: a zero-effect instruction.
    DebugPrint(String, bool),
}

/// The substrate machine itself. One instance holds the full run state:
/// registers, stack, error flag, the input bytes with a read cursor, and
/// the output written so far.
pub struct StackMachine {
    active_var: i64,
    inactive_var: i64,
    stack: Vec<i64>,
    errors_enabled: bool,
    input: Vec<u8>,
    input_pos: usize,
    output: Vec<u8>,
}

impl View for StackMachine {
    type V = MState;

    closed spec fn view(&self) -> MState {
        MState {
            a: self.active_var as int,
            i: self.inactive_var as int,
            stack: self.stack@.map_values(|v: i64| v as int),
            errors: self.errors_enabled,
            input: self.input@,
            pos: self.input_pos as int,
            output: self.output@,
        }
    }
}

impl StackMachine {
    /// Creates a machine in its start state, reading from the given input
    /// bytes.
    pub fn new(input: Vec<u8>) -> (r: Self)
        ensures
            r@ == init_state(input@),
    {
        let r = StackMachine {
            active_var: 0,
            inactive_var: 0,
            stack: Vec::new(),
            errors_enabled: true,
            input: input,
            input_pos: 0,
            output: Vec::new(),
        };
        proof {
            assert(r@.stack =~= init_state(r.input@).stack);
            assert(r@ =~= init_state(r.input@));
        }
        r
    }

    /// The current value of the active variable.
    pub fn get_active(&self) -> (r: i64)
        ensures
            r as int == self@.a,
    {
        self.active_var
    }

    /// The current value of the inactive variable.
    pub fn get_inactive(&self) -> (r: i64)
        ensures
            r as int == self@.i,
    {
        self.inactive_var
    }

    /// The current stack, bottom first.
    pub fn get_stack(&self) -> (r: &Vec<i64>)
        ensures
            r@.map_values(|v: i64| v as int) == self@.stack,
    {
        &self.stack
    }

    /// The output written so far.
    pub fn get_output(&self) -> (r: &Vec<u8>)
        ensures
            r@ == self@.output,
    {
        &self.output
    }

    /// Gives up the machine and hands back everything it wrote.
    pub fn into_output(self) -> (r: Vec<u8>)
        ensures
            r@ == self@.output,
    {
        self.output
    }

    /// Computes the low byte of the active variable.
    fn active_low_byte(&self) -> (r: u8)
        ensures
            r == low_byte(self@.a),
    {
        if self.active_var >= 0 {
            let w: u64 = self.active_var as u64;
            (w % 256) as u8
        } else {
            // For a < 0, the Euclidean remainder is 255 - ((-a - 1) % 256).
            let x: i64 = -(self.active_var + 1);
            let m: u64 = (x as u64) % 256;
            let r: u8 = (255 - m) as u8;
            proof {
                let a = self@.a;
                let xi = x as int;
                assert(a == -xi - 1);
                vstd::arithmetic::div_mod::lemma_fundamental_div_mod(xi, 256);
                let q = xi / 256;
                assert(xi == 256 * q + (xi % 256));
                assert(a == 256 * (-q - 1) + (255 - (xi % 256)));
                assert(0 <= 255 - (xi % 256) < 256);
                vstd::arithmetic::div_mod::lemma_fundamental_div_mod_converse_mod(
                    a,
                    256,
                    -q - 1,
                    255 - (xi % 256),
                );
            }
            r
        }
    }

    /// Appends the `PrintState` dump to the output.
    #[verifier::loop_isolation(false)]
    #[verifier::rlimit(60)]
    fn write_dump(&mut self)
        ensures
            final(self)@ == (MState { output: old(self)@.output + spec_dump_bytes(old(self)@), ..old(
                self,
            )@ }),
    {
        let ghost st0 = self@;
        self.output.push(65);
        self.output.push(61);
        push_int_bytes(&mut self.output, self.active_var);
        self.output.push(32);
        self.output.push(73);
        self.output.push(61);
        push_int_bytes(&mut self.output, self.inactive_var);
        self.output.push(32);
        self.output.push(83);
        self.output.push(61);
        self.output.push(91);
        let ghost mid = self@.output;
        let mut k: usize = self.stack.len();
        proof {
            assert(st0.stack.skip(self.stack@.len() as int) =~= Seq::<int>::empty());
            assert(self@.output =~= mid + spec_dump_items(st0.stack.skip(self.stack@.len() as int))
                + Seq::<u8>::empty());
        }
        while k > 0
            invariant
                k <= self.stack@.len(),
                self@ == (MState { output: self@.output, ..st0 }),
                self@.output == mid + spec_dump_items(st0.stack.skip(k as int)) + (
                if k < self.stack@.len() && k > 0 {
                    seq![44u8]
                } else {
                    Seq::<u8>::empty()
                }),
            decreases k,
        {
            k = k - 1;
            push_int_bytes(&mut self.output, self.stack[k]);
            if k > 0 {
                self.output.push(44);
            }
            proof {
                let tail = st0.stack.skip(k as int);
                assert(tail[0] == st0.stack[k as int]);
                assert(tail.drop_first() =~= st0.stack.skip(k as int + 1));
                if tail.len() >= 2 {
                    assert(spec_dump_items(tail) == spec_dump_items(tail.drop_first()) + seq![44u8]
                        + spec_int_bytes(tail[0]));
                } else {
                    assert(spec_dump_items(tail) == spec_int_bytes(tail[0]));
                }
                if k > 0 {
                    assert(self@.output =~= mid + spec_dump_items(tail) + seq![44u8]);
                } else {
                    assert(self@.output =~= mid + spec_dump_items(tail));
                }
            }
        }
        self.output.push(93);
        self.output.push(10);
        proof {
            assert(st0.stack.skip(0) =~= st0.stack);
            assert(self@.output =~= st0.output + spec_dump_bytes(st0));
            assert(final(self)@ =~= (MState { output: st0.output + spec_dump_bytes(st0), ..st0 }));
        }
    }

    /// Runs one instruction, with `fuel` bounding how many `While`
    /// iterations are still allowed. The result is exactly what the
    /// big-step semantics returns for the same state, instruction and
    /// budget.
    #[verifier::loop_isolation(false)]
    fn run_instruction(&mut self, instruction: &SmInstruction, fuel: u64) -> (r: Result<
        (),
        SmError,
    >)
        ensures
            match r {
                Ok(()) => spec_run_instr(old(self)@, deep_instr(*instruction), fuel as nat)
                    == Outcome::Done(final(self)@),
                Err(e) => spec_run_instr(old(self)@, deep_instr(*instruction), fuel as nat)
                    == Outcome::Fail(e),
            },
        decreases *instruction, 0int,
    {
        match instruction {
            SmInstruction::ReadToActive => {
                if self.input_pos < self.input.len() {
                    self.active_var = self.input[self.input_pos] as i64;
                    self.input_pos = self.input_pos + 1;
                }
                Ok(())
            },
            SmInstruction::PrintActive => {
                let b = self.active_low_byte();
                self.output.push(b);
                Ok(())
            },
            SmInstruction::PrintState => {
                self.write_dump();
                Ok(())
            },
            SmInstruction::IncrActive => {
                if self.active_var == i64::MAX {
                    Err(SmError::Overflow)
                } else {
                    self.active_var = self.active_var + 1;
                    Ok(())
                }
            },
            SmInstruction::DecrActive => {
                if self.active_var == i64::MIN {
                    Err(SmError::Overflow)
                } else {
                    self.active_var = self.active_var - 1;
                    Ok(())
                }
            },
            SmInstruction::SaveActive => {
                self.inactive_var = self.active_var;
                Ok(())
            },
            SmInstruction::Swap => {
                let t = self.active_var;
                self.active_var = self.inactive_var;
                self.inactive_var = t;
                Ok(())
            },
            SmInstruction::PushZero => {
                self.stack.push(0);
                proof {
                    assert(final(self)@.stack =~= old(self)@.stack.push(0));
                }
                Ok(())
            },
            SmInstruction::PushActive => {
                self.stack.push(self.active_var);
                proof {
                    assert(final(self)@.stack =~= old(self)@.stack.push(old(self)@.a));
                }
                Ok(())
            },
            SmInstruction::PopToActive => {
                match self.stack.pop() {
                    Some(v) => {
                        self.active_var = v;
                        proof {
                            assert(final(self)@.stack =~= old(self)@.stack.drop_last());
                            assert(v as int == old(self)@.stack.last());
                        }
                        Ok(())
                    },
                    None => {
                        if self.errors_enabled {
                            Err(SmError::PopOnEmptyStack)
                        } else {
                            self.active_var = 0;
                            Ok(())
                        }
                    },
                }
            },
            SmInstruction::ToggleErrors => {
                self.errors_enabled = !self.errors_enabled;
                Ok(())
            },
            SmInstruction::If(body) => {
                if self.active_var == self.inactive_var {
                    self.run_seq(body, fuel)
                } else {
                    Ok(())
                }
            },
            SmInstruction::While(body) => {
                let ghost entry = self@;
                let mut myfuel: u64 = fuel;
                while self.active_var > 0
                    invariant
                        spec_run_instr(entry, deep_instr(*instruction), fuel as nat)
                            == spec_run_instr(self@, deep_instr(*instruction), myfuel as nat),
                    decreases myfuel,
                {
                    if myfuel == 0 {
                        proof {
                            assert(spec_run_instr(self@, deep_instr(*instruction), myfuel as nat)
                                == Outcome::Fail(SmError::OutOfFuel));
                        }
                        return Err(SmError::OutOfFuel);
                    }
                    let ghost before = self@;
                    let r = self.run_seq(body, myfuel);
                    match r {
                        Ok(()) => (),
                        Err(e) => {
                            proof {
                                assert(spec_run_instr(before, deep_instr(*instruction), myfuel as nat)
                                    == Outcome::Fail(e));
                            }
                            return Err(e);
                        },
                    }
                    proof {
                        assert(spec_run_instr(before, deep_instr(*instruction), myfuel as nat)
                            == spec_run_instr(self@, deep_instr(*instruction), (myfuel - 1) as nat));
                    }
                    myfuel = myfuel - 1;
                }
                Ok(())
            },
            SmInstruction::Comment(_) => Ok(()),
            SmInstruction::InlineComment(inner, _) => self.run_instruction(inner, fuel),
            SmInstruction::DebugPrint(_, _) => Ok(()),
        }
    }

    /// Runs a sequence of instructions in order, stopping at the first
    /// fault; the result is exactly what the big-step semantics returns.
    #[verifier::loop_isolation(false)]
    fn run_seq(&mut self, instructions: &Vec<SmInstruction>, fuel: u64) -> (r: Result<(), SmError>)
        ensures
            match r {
                Ok(()) => spec_run_seq(old(self)@, deep_instrs(instructions@), fuel as nat)
                    == Outcome::Done(final(self)@),
                Err(e) => spec_run_seq(old(self)@, deep_instrs(instructions@), fuel as nat)
                    == Outcome::Fail(e),
            },
        decreases instructions@, 1int,
    {
        let ghost entry = self@;
        let ghost ginstrs = deep_instrs(instructions@);
        let mut k: usize = 0;
        proof {
            assert(ginstrs.subrange(0, ginstrs.len() as int) =~= ginstrs);
        }
        while k < instructions.len()
            invariant
                k <= instructions@.len(),
                ginstrs.len() == instructions@.len(),
                spec_run_seq(entry, ginstrs, fuel as nat) == spec_run_seq(
                    self@,
                    ginstrs.subrange(k as int, ginstrs.len() as int),
                    fuel as nat,
                ),
            decreases instructions@.len() - k,
        {
            let ghost before = self@;
            let ghost rest = ginstrs.subrange(k as int, ginstrs.len() as int);
            assert(rest[0] == deep_instr(instructions@[k as int]));
            let r = self.run_instruction(&instructions[k], fuel);
            match r {
                Ok(()) => (),
                Err(e) => {
                    proof {
                        assert(spec_run_seq(before, rest, fuel as nat) == Outcome::Fail(e));
                    }
                    return Err(e);
                },
            }
            k = k + 1;
            proof {
                assert(rest.subrange(1, rest.len() as int) =~= ginstrs.subrange(
                    k as int,
                    ginstrs.len() as int,
                ));
            }
        }
        proof {
            assert(ginstrs.subrange(k as int, ginstrs.len() as int)
                =~= Seq::<SpecInstr>::empty());
        }
        Ok(())
    }

    /// Runs a whole program on this machine with the largest step budget.
    /// On success the machine ends in exactly the state the semantics
    /// gives; a fault is reported as the error value the semantics gives.
    pub fn run(&mut self, instructions: &Vec<SmInstruction>) -> (r: Result<(), SmError>)
        ensures
            match r {
                Ok(()) => spec_run_seq(old(self)@, deep_instrs(instructions@), u64::MAX as nat)
                    == Outcome::Done(final(self)@),
                Err(e) => spec_run_seq(old(self)@, deep_instrs(instructions@), u64::MAX as nat)
                    == Outcome::Fail(e),
            },
    {
        self.run_seq(instructions, u64::MAX)
    }
}

} // verus!
