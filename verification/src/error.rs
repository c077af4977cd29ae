//! Error values reported by the validator, the substrate interpreter, and
//! the Turing machine facade. All errors are values; rendering to text is
//! done by the `to_message` methods, whose exact output is specified.

use vstd::prelude::*;
use vstd::string::StringExecFns;
use crate::ast::{Char, StateId};
use crate::utils::{ascii_to_string, char_to_string, spec_nat_chars, u64_to_string};

verus! {

/// A structural fault found in a machine description by the validator.
#[derive(Clone, Debug)]
pub enum CompilerError {
    /// Some state has id `0`, which is reserved.
    InvalidStateId(StateId),
    /// The id appears on more than one state.
    DuplicateStateId(StateId),
    /// No state is marked as initial.
    NoInitialState,
    /// More than one state is marked as initial; the payload lists the
    /// offenders in source order.
    MultipleInitialStates(Vec<StateId>),
    /// A transition names a `next_state` that is not present.
    UndefinedState(StateId),
    /// A transition's `match_char` is `0` or not a 7-bit character.
    InvalidCharacter(Char),
}

/// The mathematical value of a `CompilerError`: the same variants, with
/// the one list payload abstracted to a sequence.
pub ghost enum SpecError {
    InvalidStateId(StateId),
    DuplicateStateId(StateId),
    NoInitialState,
    MultipleInitialStates(Seq<StateId>),
    UndefinedState(StateId),
    InvalidCharacter(Char),
}

impl View for CompilerError {
    type V = SpecError;

    open spec fn view(&self) -> SpecError {
        match self {
            CompilerError::InvalidStateId(id) => SpecError::InvalidStateId(*id),
            CompilerError::DuplicateStateId(id) => SpecError::DuplicateStateId(*id),
            CompilerError::NoInitialState => SpecError::NoInitialState,
            CompilerError::MultipleInitialStates(ids) => SpecError::MultipleInitialStates(ids@),
            CompilerError::UndefinedState(id) => SpecError::UndefinedState(*id),
            CompilerError::InvalidCharacter(c) => SpecError::InvalidCharacter(*c),
        }
    }
}

impl DeepView for CompilerError {
    type V = SpecError;

    open spec fn deep_view(&self) -> SpecError {
        self.view()
    }
}

/// The rendering of a list of state ids, such as `[1, 2]`: the first `k`
/// entries of `ids`, comma separated, after an opening bracket.
pub open spec fn spec_id_list_prefix(ids: Seq<StateId>, k: int) -> Seq<char>
    decreases k,
{
    if k <= 0 {
        seq!['[']
    } else if k == 1 {
        spec_id_list_prefix(ids, 0) + spec_nat_chars(ids[0] as nat)
    } else {
        spec_id_list_prefix(ids, k - 1) + seq![',', ' '] + spec_nat_chars(ids[k - 1] as nat)
    }
}

/// The full rendering of a list of state ids, brackets included.
pub open spec fn spec_id_list_chars(ids: Seq<StateId>) -> Seq<char> {
    spec_id_list_prefix(ids, ids.len() as int) + seq![']']
}

/// The exact message text of one validator error.
pub open spec fn spec_compiler_error_chars(e: CompilerError) -> Seq<char> {
    match e {
        CompilerError::InvalidStateId(id) => "Invalid state ID: "@ + spec_nat_chars(id as nat)
            + ". Must be >0."@,
        CompilerError::DuplicateStateId(id) => "State ID defined multiple times: "@
            + spec_nat_chars(id as nat),
        CompilerError::NoInitialState => "No state marked as initial"@,
        CompilerError::MultipleInitialStates(ids) => "Multiple states marked as initial: "@
            + spec_id_list_chars(ids@),
        CompilerError::UndefinedState(id) => "Undefined state: "@ + spec_nat_chars(id as nat),
        CompilerError::InvalidCharacter(c) => "Illegal character: "@ + seq![c as char],
    }
}

/// Renders a bracketed, comma-separated list of state ids.
fn id_list_to_string(ids: &Vec<StateId>) -> (s: String)
    ensures
        s@ == spec_id_list_chars(ids@),
{
    let mut s = String::from_str("[");
    proof {
        reveal_strlit("[");
        assert(s@ =~= spec_id_list_prefix(ids@, 0));
    }
    let mut k: usize = 0;
    while k < ids.len()
        invariant
            k <= ids@.len(),
            s@ == spec_id_list_prefix(ids@, k as int),
        decreases ids@.len() - k,
    {
        if k > 0 {
            s.append(", ");
            proof {
                reveal_strlit(", ");
                assert(", "@ =~= seq![',', ' ']);
            }
        }
        let digits = u64_to_string(ids[k] as u64);
        s.append(digits.as_str());
        k = k + 1;
        proof {
            assert(s@ =~= spec_id_list_prefix(ids@, k as int));
        }
    }
    s.append("]");
    proof {
        reveal_strlit("]");
        assert("]"@ =~= seq![']']);
        assert(s@ =~= spec_id_list_chars(ids@));
    }
    s
}

impl CompilerError {
    /// Renders this error as the message text that tests and the CLI show.
    pub fn to_message(&self) -> (s: String)
        ensures
            s@ == spec_compiler_error_chars(*self),
    {
        match self {
            CompilerError::InvalidStateId(id) => {
                let mut s = String::from_str("Invalid state ID: ");
                let digits = u64_to_string(*id as u64);
                s.append(digits.as_str());
                s.append(". Must be >0.");
                s
            },
            CompilerError::DuplicateStateId(id) => {
                let mut s = String::from_str("State ID defined multiple times: ");
                let digits = u64_to_string(*id as u64);
                s.append(digits.as_str());
                s
            },
            CompilerError::NoInitialState => String::from_str("No state marked as initial"),
            CompilerError::MultipleInitialStates(ids) => {
                let mut s = String::from_str("Multiple states marked as initial: ");
                let list = id_list_to_string(ids);
                s.append(list.as_str());
                s
            },
            CompilerError::UndefinedState(id) => {
                let mut s = String::from_str("Undefined state: ");
                let digits = u64_to_string(*id as u64);
                s.append(digits.as_str());
                s
            },
            CompilerError::InvalidCharacter(c) => {
                let mut s = String::from_str("Illegal character: ");
                let one = char_to_string(*c as char);
                s.append(one.as_str());
                s
            },
        }
    }
}

/// The container for the full list of validator errors found in one
/// machine description.
#[derive(Clone, Debug)]
pub struct CompilerErrors(pub Vec<CompilerError>);

/// The message text of a list of validator errors: the first `k` messages,
/// one per line.
pub open spec fn spec_errors_prefix(es: Seq<CompilerError>, k: int) -> Seq<char>
    decreases k,
{
    if k <= 0 {
        Seq::empty()
    } else if k == 1 {
        spec_compiler_error_chars(es[0])
    } else {
        spec_errors_prefix(es, k - 1) + seq!['\n'] + spec_compiler_error_chars(es[k - 1])
    }
}

/// The full message text of a list of validator errors.
pub open spec fn spec_errors_chars(es: Seq<CompilerError>) -> Seq<char> {
    spec_errors_prefix(es, es.len() as int)
}

impl CompilerErrors {
    /// Wraps a list of validator errors.
    pub fn new(errors: Vec<CompilerError>) -> (r: Self)
        ensures
            r.0 == errors,
    {
        CompilerErrors(errors)
    }

    /// Renders all contained errors, one message per line.
    pub fn to_message(&self) -> (s: String)
        ensures
            s@ == spec_errors_chars(self.0@),
    {
        let mut s = String::new();
        let mut k: usize = 0;
        while k < self.0.len()
            invariant
                k <= self.0@.len(),
                s@ == spec_errors_prefix(self.0@, k as int),
            decreases self.0@.len() - k,
        {
            if k > 0 {
                let nl: Vec<u8> = vec![10u8];
                let nl_s = ascii_to_string(&nl);
                s.append(nl_s.as_str());
                proof {
                    assert(nl_s@ =~= seq!['\n']);
                }
            }
            let msg = self.0[k].to_message();
            s.append(msg.as_str());
            k = k + 1;
            proof {
                assert(s@ =~= spec_errors_prefix(self.0@, k as int));
            }
        }
        s
    }
}

/// A fault of the substrate machine at run time.
#[derive(Clone, Copy, Debug, PartialEq, Eq, Structural)]
pub enum SmError {
    /// `PopActive` on an empty stack while errors are enabled.
    PopOnEmptyStack,
    /// A register left the 64-bit signed range.
    Overflow,
    /// The step budget of one run was exhausted.
    OutOfFuel,
}

/// The exact message text of one machine fault.
pub open spec fn spec_sm_error_chars(e: SmError) -> Seq<char> {
    match e {
        SmError::PopOnEmptyStack => "Pop on empty stack"@,
        SmError::Overflow => "Arithmetic overflow"@,
        SmError::OutOfFuel => "Step limit exceeded"@,
    }
}

impl SmError {
    /// Renders this fault as a message.
    pub fn to_message(&self) -> (s: String)
        ensures
            s@ == spec_sm_error_chars(*self),
    {
        match self {
            SmError::PopOnEmptyStack => String::from_str("Pop on empty stack"),
            SmError::Overflow => String::from_str("Arithmetic overflow"),
            SmError::OutOfFuel => String::from_str("Step limit exceeded"),
        }
    }
}

/// A fault in one input tape character handed to a compiled machine.
#[derive(Clone, Copy, Debug, PartialEq, Eq, Structural)]
pub enum InputError {
    /// The byte at `index` is not a 7-bit character.
    NotAscii { index: usize },
    /// The byte at `index` is the blank character `0`, which is forbidden
    /// in input.
    Blank { index: usize },
}

/// The exact message text of one input error.
pub open spec fn spec_input_error_chars(e: InputError) -> Seq<char> {
    match e {
        InputError::NotAscii { index } => "the byte at index "@ + spec_nat_chars(index as nat)
            + " is not ASCII"@,
        InputError::Blank { index } => "Invalid character: "@ + seq![0 as char]
            + " (Blank char in input at index "@ + spec_nat_chars(index as nat) + ")"@,
    }
}

impl InputError {
    /// Renders this input error as a message.
    pub fn to_message(&self) -> (s: String)
        ensures
            s@ == spec_input_error_chars(*self),
    {
        match self {
            InputError::NotAscii { index } => {
                let mut s = String::from_str("the byte at index ");
                let digits = u64_to_string(*index as u64);
                s.append(digits.as_str());
                s.append(" is not ASCII");
                s
            },
            InputError::Blank { index } => {
                let mut s = String::from_str("Invalid character: ");
                let one = char_to_string(0 as char);
                s.append(one.as_str());
                s.append(" (Blank char in input at index ");
                let digits = u64_to_string(*index as u64);
                s.append(digits.as_str());
                s.append(")");
                s
            },
        }
    }
}

/// What can go wrong when a compiled machine is run on an input string:
/// the input can be rejected up front, or the substrate can fault.
#[derive(Clone, Debug)]
pub enum RunError {
    /// One entry for each offending input position.
    InvalidInput(Vec<InputError>),
    /// The substrate machine faulted while executing.
    Machine(SmError),
}

/// The message text of the first `k` input errors, one per line.
pub open spec fn spec_input_errors_prefix(es: Seq<InputError>, k: int) -> Seq<char>
    decreases k,
{
    if k <= 0 {
        Seq::empty()
    } else if k == 1 {
        spec_input_error_chars(es[0])
    } else {
        spec_input_errors_prefix(es, k - 1) + seq!['\n'] + spec_input_error_chars(es[k - 1])
    }
}

/// The exact message text of a run error.
pub open spec fn spec_run_error_chars(e: RunError) -> Seq<char> {
    match e {
        RunError::InvalidInput(es) => spec_input_errors_prefix(es@, es@.len() as int),
        RunError::Machine(f) => spec_sm_error_chars(f),
    }
}

impl RunError {
    /// Renders this run error as a message, one line per input fault.
    pub fn to_message(&self) -> (s: String)
        ensures
            s@ == spec_run_error_chars(*self),
    {
        match self {
            RunError::InvalidInput(es) => {
                let mut s = String::new();
                let mut k: usize = 0;
                while k < es.len()
                    invariant
                        k <= es@.len(),
                        s@ == spec_input_errors_prefix(es@, k as int),
                    decreases es@.len() - k,
                {
                    if k > 0 {
                        let nl: Vec<u8> = vec![10u8];
                        let nl_s = ascii_to_string(&nl);
                        s.append(nl_s.as_str());
                        proof {
                            assert(nl_s@ =~= seq!['\n']);
                        }
                    }
                    let msg = es[k].to_message();
                    s.append(msg.as_str());
                    k = k + 1;
                    proof {
                        assert(s@ =~= spec_input_errors_prefix(es@, k as int));
                    }
                }
                s
            },
            RunError::Machine(f) => f.to_message(),
        }
    }
}

} // verus!
