//! The validator: the structural invariants a machine description must
//! satisfy before it can be lowered, the error list reported when it does
//! not, and the `Valid` witness produced when it does.
//!
//! The executable validator returns exactly the error sequence given by
//! `spec_program_errors`, and that sequence is proved empty precisely on
//! well-formed programs (`spec_wf`).

use vstd::prelude::*;
use crate::ast::{Program, State, StateId, Transition};
use crate::error::{CompilerError, CompilerErrors, SpecError};
use crate::utils::{spec_valid_char, validate_char};

verus! {

/// The ids of all states, in source order.
pub open spec fn spec_state_ids(states: Seq<State>) -> Seq<StateId> {
    states.map_values(|s: State| s.id)
}

/// Whether some state carries the given id.
pub open spec fn spec_has_state(states: Seq<State>, id: StateId) -> bool {
    exists|k: int| 0 <= k < states.len() && states[k].id == id
}

/// Whether some state among the first `upto` carries the given id.
pub open spec fn spec_id_among(states: Seq<State>, upto: int, id: StateId) -> bool {
    exists|k: int| 0 <= k < upto && k < states.len() && states[k].id == id
}

/// The ids of the states among the first `upto` that are marked initial,
/// in source order.
pub open spec fn spec_initial_ids_upto(states: Seq<State>, upto: int) -> Seq<StateId>
    decreases upto,
{
    if upto <= 0 || upto > states.len() {
        Seq::empty()
    } else if states[upto - 1].initial {
        spec_initial_ids_upto(states, upto - 1).push(states[upto - 1].id)
    } else {
        spec_initial_ids_upto(states, upto - 1)
    }
}

/// The ids of all states marked initial, in source order.
pub open spec fn spec_initial_ids(states: Seq<State>) -> Seq<StateId> {
    spec_initial_ids_upto(states, states.len() as int)
}

/// The six conditions a machine description must satisfy: no state id is
/// `0`; ids are pairwise distinct; at least one, and at most one, state is
/// initial; every transition's target is a declared state; and every
/// transition's match character is a legal alphabet character.
pub open spec fn spec_wf(p: Program) -> bool {
    let states = p.states@;
    &&& forall|k: int| 0 <= k < states.len() ==> (#[trigger] states[k]).id != 0
    &&& forall|j: int, k: int|
        0 <= j < k < states.len() ==> (#[trigger] states[j]).id != (#[trigger] states[k]).id
    &&& spec_initial_ids(states).len() >= 1
    &&& spec_initial_ids(states).len() <= 1
    &&& forall|j: int, k: int|
        0 <= j < states.len() && 0 <= k < states[j].transitions@.len() ==> spec_has_state(
            states,
            (#[trigger] states[j].transitions@[k]).next_state,
        )
    &&& forall|j: int, k: int|
        0 <= j < states.len() && 0 <= k < states[j].transitions@.len() ==> spec_valid_char(
            (#[trigger] states[j].transitions@[k]).match_char,
        )
}

/// The errors reported for one transition, given the declared state ids.
pub open spec fn spec_transition_errors(t: Transition, ids: Seq<StateId>) -> Seq<SpecError> {
    (if !spec_valid_char(t.match_char) {
        seq![SpecError::InvalidCharacter(t.match_char)]
    } else {
        Seq::<SpecError>::empty()
    }) + (if !ids.contains(t.next_state) {
        seq![SpecError::UndefinedState(t.next_state)]
    } else {
        Seq::<SpecError>::empty()
    })
}

/// The errors reported for a list of transitions, in order.
pub open spec fn spec_transitions_errors(trs: Seq<Transition>, ids: Seq<StateId>) -> Seq<SpecError>
    decreases trs.len(),
{
    if trs.len() == 0 {
        Seq::empty()
    } else {
        spec_transitions_errors(trs.drop_last(), ids) + spec_transition_errors(trs.last(), ids)
    }
}

/// The errors reported for one state: its own id check, then its
/// transitions' checks.
pub open spec fn spec_state_errors(s: State, ids: Seq<StateId>) -> Seq<SpecError> {
    (if s.id == 0 {
        seq![SpecError::InvalidStateId(s.id)]
    } else {
        Seq::<SpecError>::empty()
    }) + spec_transitions_errors(s.transitions@, ids)
}

/// The per-state errors of the first `upto` states, concatenated in
/// source order.
pub open spec fn spec_states_errors(states: Seq<State>, ids: Seq<StateId>, upto: int) -> Seq<
    SpecError,
>
    decreases upto,
{
    if upto <= 0 || upto > states.len() {
        Seq::empty()
    } else {
        spec_states_errors(states, ids, upto - 1) + spec_state_errors(states[upto - 1], ids)
    }
}

/// Whether the given id is carried by at least two of the first `upto`
/// states.
pub open spec fn spec_id_twice_among(states: Seq<State>, upto: int, id: StateId) -> bool {
    exists|k1: int, k2: int|
        0 <= k1 < k2 < upto && k2 < states.len() && states[k1].id == id && states[k2].id == id
}

/// Exactly one `DuplicateStateId` error for every id value carried by
/// more than one state: the error is reported at the id's second
/// occurrence, among the first `upto` states.
pub open spec fn spec_dup_errors(states: Seq<State>, upto: int) -> Seq<SpecError>
    decreases upto,
{
    if upto <= 0 || upto > states.len() {
        Seq::empty()
    } else {
        spec_dup_errors(states, upto - 1) + (if spec_id_among(
            states,
            upto - 1,
            states[upto - 1].id,
        ) && !spec_id_twice_among(states, upto - 1, states[upto - 1].id) {
            seq![SpecError::DuplicateStateId(states[upto - 1].id)]
        } else {
            Seq::<SpecError>::empty()
        })
    }
}

/// The initial-state check: one error when no state is initial, one when
/// several are.
pub open spec fn spec_initial_errors(states: Seq<State>) -> Seq<SpecError> {
    let inits = spec_initial_ids(states);
    if inits.len() == 0 {
        seq![SpecError::NoInitialState]
    } else if inits.len() > 1 {
        seq![SpecError::MultipleInitialStates(inits)]
    } else {
        Seq::<SpecError>::empty()
    }
}

/// Everything the validator reports for a program: duplicate-id errors,
/// then per-state errors, then the initial-state check.
pub open spec fn spec_program_errors(p: Program) -> Seq<SpecError> {
    let states = p.states@;
    spec_dup_errors(states, states.len() as int) + spec_states_errors(
        states,
        spec_state_ids(states),
        states.len() as int,
    ) + spec_initial_errors(states)
}

/// The mathematical values of a sequence of errors.
pub open spec fn spec_deep(s: Seq<CompilerError>) -> Seq<SpecError> {
    s.map_values(|e: CompilerError| e@)
}

/// `deep_view` of an error vector is the value sequence of its view.
pub broadcast proof fn lemma_deep_view_is_spec_deep(v: &Vec<CompilerError>)
    ensures
        #[trigger] v.deep_view() == spec_deep(v@),
{
    assert(v.deep_view() =~= spec_deep(v@));
}

proof fn lemma_spec_deep_concat(x: Seq<CompilerError>, y: Seq<CompilerError>)
    ensures
        spec_deep(x + y) == spec_deep(x) + spec_deep(y),
{
    assert(spec_deep(x + y) =~= spec_deep(x) + spec_deep(y));
}

proof fn lemma_ids_contains(states: Seq<State>, id: StateId)
    ensures
        spec_state_ids(states).contains(id) <==> spec_has_state(states, id),
{
    if spec_state_ids(states).contains(id) {
        let k = choose|k: int|
            0 <= k < spec_state_ids(states).len() && spec_state_ids(states)[k] == id;
        assert(states[k].id == id);
    }
    if spec_has_state(states, id) {
        let k = choose|k: int| 0 <= k < states.len() && states[k].id == id;
        assert(spec_state_ids(states)[k] == id);
    }
}

proof fn lemma_transitions_errors_empty(trs: Seq<Transition>, ids: Seq<StateId>)
    ensures
        spec_transitions_errors(trs, ids).len() == 0 <==> forall|k: int|
            0 <= k < trs.len() ==> spec_valid_char((#[trigger] trs[k]).match_char) && ids.contains(
                trs[k].next_state,
            ),
    decreases trs.len(),
{
    if trs.len() > 0 {
        lemma_transitions_errors_empty(trs.drop_last(), ids);
        assert(forall|k: int| 0 <= k < trs.len() - 1 ==> trs.drop_last()[k] == #[trigger] trs[k]);
        assert(trs.last() == trs[trs.len() - 1]);
    }
}

proof fn lemma_states_errors_empty(states: Seq<State>, ids: Seq<StateId>, upto: int)
    requires
        0 <= upto <= states.len(),
    ensures
        spec_states_errors(states, ids, upto).len() == 0 <==> ((forall|j: int|
            0 <= j < upto ==> (#[trigger] states[j]).id != 0) && (forall|j: int, k: int|
            0 <= j < upto && 0 <= k < states[j].transitions@.len() ==> spec_valid_char(
                (#[trigger] states[j].transitions@[k]).match_char,
            ) && ids.contains(states[j].transitions@[k].next_state))),
    decreases upto,
{
    if upto > 0 {
        lemma_states_errors_empty(states, ids, upto - 1);
        lemma_transitions_errors_empty(states[upto - 1].transitions@, ids);
    }
}

proof fn lemma_dup_errors_empty(states: Seq<State>, upto: int)
    requires
        0 <= upto <= states.len(),
    ensures
        spec_dup_errors(states, upto).len() == 0 <==> forall|j: int, k: int|
            0 <= j < k < upto ==> (#[trigger] states[j]).id != (#[trigger] states[k]).id,
    decreases upto,
{
    if upto > 0 {
        lemma_dup_errors_empty(states, upto - 1);
        if spec_dup_errors(states, upto).len() == 0 {
            // The prefix is unique, so no id can occur twice before the
            // last state either, and the last state's own emission
            // condition reduces to a first-time clash.
            assert forall|j: int, k: int| 0 <= j < k < upto implies (#[trigger] states[j]).id != (
            #[trigger] states[k]).id by {
                if k == upto - 1 {
                    if states[j].id == states[k].id {
                        assert(spec_id_among(states, upto - 1, states[upto - 1].id));
                        assert(!spec_id_twice_among(states, upto - 1, states[upto - 1].id));
                    }
                }
            }
        } else {
            if spec_dup_errors(states, upto - 1).len() == 0 {
                assert(spec_id_among(states, upto - 1, states[upto - 1].id));
                let last_id = states[upto - 1].id;
                let j = choose|j: int|
                    0 <= j < upto - 1 && j < states.len() && (#[trigger] states[j]).id == last_id;
                assert(states[j].id == states[upto - 1].id);
            }
        }
    }
}

/// Validator soundness: the validator reports nothing precisely when the
/// program satisfies all six well-formedness conditions.
pub proof fn lemma_validate_iff_wf(p: Program)
    ensures
        spec_program_errors(p).len() == 0 <==> spec_wf(p),
{
    let states = p.states@;
    let ids = spec_state_ids(states);
    let n = states.len() as int;
    lemma_dup_errors_empty(states, n);
    lemma_states_errors_empty(states, ids, n);
    assert forall|id: StateId| ids.contains(id) <==> spec_has_state(states, id) by {
        lemma_ids_contains(states, id);
    }
    if spec_program_errors(p).len() == 0 {
        assert(spec_states_errors(states, ids, n).len() == 0);
        assert(spec_initial_errors(states).len() == 0);
        assert forall|j: int, k: int|
            0 <= j < states.len() && 0 <= k < states[j].transitions@.len() implies spec_has_state(
            states,
            (#[trigger] states[j].transitions@[k]).next_state,
        ) && spec_valid_char(states[j].transitions@[k].match_char) by {
            assert(ids.contains(states[j].transitions@[k].next_state));
        }
    }
    if spec_wf(p) {
        assert(spec_dup_errors(states, n).len() == 0);
        assert forall|j: int, k: int|
            0 <= j < n && 0 <= k < states[j].transitions@.len() implies spec_valid_char(
            (#[trigger] states[j].transitions@[k]).match_char,
        ) && ids.contains(states[j].transitions@[k].next_state) by {
            assert(spec_has_state(states, states[j].transitions@[k].next_state));
        }
        assert(spec_states_errors(states, ids, n).len() == 0);
        assert(spec_initial_errors(states).len() == 0);
    }
}

/// Checks whether `id` occurs in `ids`.
#[verifier::loop_isolation(false)]
fn ids_contain(ids: &Vec<StateId>, id: StateId) -> (r: bool)
    ensures
        r == ids@.contains(id),
{
    let mut k: usize = 0;
    while k < ids.len()
        invariant
            k <= ids@.len(),
            forall|j: int| 0 <= j < k ==> ids@[j] != id,
        decreases ids@.len() - k,
    {
        if ids[k] == id {
            return true;
        }
        k = k + 1;
    }
    false
}

/// Validation of one element of a machine description, given the context
/// it is judged in.
pub trait Validate: Sized {
    /// What the element needs to know about its surroundings: the list of
    /// declared state ids, or nothing.
    type Context;

    /// Reports every fault found in this element.
    fn validate(&self, context: &Self::Context) -> Vec<CompilerError>;
}

impl Validate for Transition {
    type Context = Vec<StateId>;

    /// Checks the match character and the transition target.
    #[verifier::loop_isolation(false)]
    fn validate(&self, context: &Vec<StateId>) -> (errors: Vec<CompilerError>)
        ensures
            errors.deep_view() == spec_transition_errors(*self, context@),
    {
        let mut errors: Vec<CompilerError> = Vec::new();
        match validate_char(self.match_char) {
            Ok(()) => (),
            Err(e) => {
                errors.push(e);
            },
        }
        if !ids_contain(context, self.next_state) {
            errors.push(CompilerError::UndefinedState(self.next_state));
        }
        proof {
            assert(errors.deep_view() =~= spec_transition_errors(*self, context@));
        }
        errors
    }
}

impl Validate for State {
    type Context = Vec<StateId>;

    /// Checks this state's id, then all its transitions.
    #[verifier::loop_isolation(false)]
    fn validate(&self, context: &Vec<StateId>) -> (errors: Vec<CompilerError>)
        ensures
            errors.deep_view() == spec_state_errors(*self, context@),
    {
        let mut errors: Vec<CompilerError> = Vec::new();
        if self.id == 0 {
            errors.push(CompilerError::InvalidStateId(self.id));
        }
        let mut k: usize = 0;
        while k < self.transitions.len()
            invariant
                k <= self.transitions@.len(),
                errors.deep_view() == (if self.id == 0 {
                    seq![SpecError::InvalidStateId(self.id)]
                } else {
                    Seq::<SpecError>::empty()
                }) + spec_transitions_errors(self.transitions@.take(k as int), context@),
            decreases self.transitions@.len() - k,
        {
            let mut errs = self.transitions[k].validate(context);
            let ghost pre = errors@;
            let ghost pre_deep = errors.deep_view();
            let ghost add = errs@;
            let ghost add_deep = errs.deep_view();
            errors.append(&mut errs);
            k = k + 1;
            proof {
                broadcast use lemma_deep_view_is_spec_deep;

                lemma_spec_deep_concat(pre, add);
                assert(errors.deep_view() == pre_deep + add_deep);
                let taken = self.transitions@.take(k as int);
                assert(taken.drop_last() =~= self.transitions@.take(k as int - 1));
                assert(taken.last() == self.transitions@[k as int - 1]);
                assert(errors.deep_view() =~= (if self.id == 0 {
                    seq![SpecError::InvalidStateId(self.id)]
                } else {
                    Seq::<SpecError>::empty()
                }) + spec_transitions_errors(taken, context@));
            }
        }
        proof {
            assert(self.transitions@.take(self.transitions@.len() as int) =~= self.transitions@);
            assert(errors.deep_view() =~= spec_state_errors(*self, context@));
        }
        errors
    }
}

impl Validate for Program {
    type Context = ();

    /// Runs every check on the whole description and accumulates the
    /// errors; the result is empty exactly on well-formed programs.
    #[verifier::loop_isolation(false)]
    fn validate(&self, _context: &()) -> (errors: Vec<CompilerError>)
        ensures
            errors.deep_view() == spec_program_errors(*self),
            errors@.len() == 0 <==> spec_wf(*self),
    {
        let states = &self.states;
        let ghost gstates = self.states@;
        let n = states.len();

        // The declared ids, in source order.
        let mut ids: Vec<StateId> = Vec::new();
        let mut j: usize = 0;
        while j < n
            invariant
                j <= gstates.len(),
                n == gstates.len(),
                ids@.len() == j,
                forall|k: int| 0 <= k < j ==> ids@[k] == gstates[k].id,
            decreases gstates.len() - j,
        {
            ids.push(states[j].id);
            j = j + 1;
        }
        proof {
            assert(ids@ =~= spec_state_ids(gstates));
        }

        let mut errors: Vec<CompilerError> = Vec::new();

        // Duplicate ids: one error per duplicated id value, reported at
        // the id's second occurrence.
        let mut j: usize = 0;
        while j < n
            invariant
                j <= gstates.len(),
                n == gstates.len(),
                ids@ == spec_state_ids(gstates),
                errors.deep_view() == spec_dup_errors(gstates, j as int),
            decreases gstates.len() - j,
        {
            let id = states[j].id;
            let mut dup = false;
            let mut twice = false;
            let mut k: usize = 0;
            while k < j
                invariant
                    k <= j,
                    j < gstates.len(),
                    n == gstates.len(),
                    id == gstates[j as int].id,
                    dup == spec_id_among(gstates, k as int, id),
                    twice == spec_id_twice_among(gstates, k as int, id),
                decreases j - k,
            {
                let ghost prev_dup = dup;
                let ghost prev_twice = twice;
                if states[k].id == id {
                    if dup {
                        twice = true;
                    }
                    dup = true;
                    proof {
                        assert(spec_id_among(gstates, k as int + 1, id));
                        if prev_dup {
                            let k1 = choose|k1: int|
                                0 <= k1 < k && k1 < gstates.len() && (#[trigger] gstates[k1]).id
                                    == id;
                            assert(gstates[k1].id == id && gstates[k as int].id == id);
                            assert(spec_id_twice_among(gstates, k as int + 1, id));
                        } else {
                            // A fresh first occurrence cannot complete a pair.
                            if spec_id_twice_among(gstates, k as int + 1, id) {
                                let (k1, k2) = choose|k1: int, k2: int|
                                    0 <= k1 < k2 < k + 1 && k2 < gstates.len() && (
                                    #[trigger] gstates[k1]).id == id && (#[trigger] gstates[k2]).id
                                        == id;
                                assert(spec_id_among(gstates, k as int, id));
                            }
                        }
                    }
                } else {
                    proof {
                        if spec_id_among(gstates, k as int + 1, id) && !prev_dup {
                            let k1 = choose|k1: int|
                                0 <= k1 < k + 1 && k1 < gstates.len() && (#[trigger] gstates[k1]).id
                                    == id;
                            assert(spec_id_among(gstates, k as int, id));
                        }
                        if spec_id_twice_among(gstates, k as int + 1, id) && !prev_twice {
                            let (k1, k2) = choose|k1: int, k2: int|
                                0 <= k1 < k2 < k + 1 && k2 < gstates.len() && (
                                #[trigger] gstates[k1]).id == id && (#[trigger] gstates[k2]).id
                                    == id;
                            assert(spec_id_twice_among(gstates, k as int, id));
                        }
                    }
                }
                k = k + 1;
            }
            if dup && !twice {
                errors.push(CompilerError::DuplicateStateId(id));
            }
            j = j + 1;
            proof {
                assert(errors.deep_view() =~= spec_dup_errors(gstates, j as int));
            }
        }

        // Per-state checks.
        let ghost dup_part = errors.deep_view();
        let mut j: usize = 0;
        while j < n
            invariant
                j <= gstates.len(),
                n == gstates.len(),
                ids@ == spec_state_ids(gstates),
                dup_part == spec_dup_errors(gstates, gstates.len() as int),
                errors.deep_view() == dup_part + spec_states_errors(gstates, ids@, j as int),
            decreases gstates.len() - j,
        {
            let mut errs = states[j].validate(&ids);
            let ghost pre = errors@;
            let ghost pre_deep = errors.deep_view();
            let ghost add = errs@;
            let ghost add_deep = errs.deep_view();
            errors.append(&mut errs);
            j = j + 1;
            proof {
                broadcast use lemma_deep_view_is_spec_deep;

                lemma_spec_deep_concat(pre, add);
                assert(errors.deep_view() == pre_deep + add_deep);
                assert(errors.deep_view() =~= dup_part + spec_states_errors(
                    gstates,
                    ids@,
                    j as int,
                ));
            }
        }

        // The initial-state check.
        let mut inits: Vec<StateId> = Vec::new();
        let mut j: usize = 0;
        while j < n
            invariant
                j <= gstates.len(),
                n == gstates.len(),
                inits@ == spec_initial_ids_upto(gstates, j as int),
            decreases gstates.len() - j,
        {
            if states[j].initial {
                inits.push(states[j].id);
            }
            j = j + 1;
        }
        let ghost main_part = errors.deep_view();
        if inits.len() == 0 {
            errors.push(CompilerError::NoInitialState);
        } else if inits.len() > 1 {
            errors.push(CompilerError::MultipleInitialStates(inits));
        }
        proof {
            assert(errors.deep_view() =~= spec_program_errors(*self));
            lemma_validate_iff_wf(*self);
            assert(errors@.len() == errors.deep_view().len());
        }
        errors
    }
}

/// A machine description that passed validation. A value of this type can
/// only be made by `Program::validate_into`, so holding one is proof that
/// the six conditions of `spec_wf` hold of the wrapped program.
pub struct Valid(Program);

impl Valid {
    /// Holding a `Valid` means the wrapped program is well-formed.
    #[verifier::type_invariant]
    pub closed spec fn wf(self) -> bool {
        spec_wf(self.0)
    }

    /// The wrapped program.
    pub closed spec fn spec_program(self) -> Program {
        self.0
    }

    /// Borrows the wrapped program.
    pub fn program(&self) -> (r: &Program)
        ensures
            r == self.spec_program(),
            spec_wf(self.spec_program()),
    {
        proof {
            use_type_invariant(self);
        }
        &self.0
    }
}

impl Program {
    /// Validates this description: a well-formed program comes back as a
    /// `Valid` witness, anything else as the full list of faults.
    pub fn validate_into(self) -> (r: Result<Valid, CompilerErrors>)
        ensures
            match r {
                Ok(v) => spec_wf(self) && v.spec_program() == self,
                Err(es) => !spec_wf(self) && es.0.deep_view() == spec_program_errors(self)
                    && es.0@.len() > 0,
            },
    {
        let errors = self.validate(&());
        if errors.len() == 0 {
            Ok(Valid(self))
        } else {
            Err(CompilerErrors::new(errors))
        }
    }
}

} // verus!
