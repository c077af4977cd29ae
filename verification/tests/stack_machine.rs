//! Behavior of the substrate machine, one instruction at a time.

use tm::stack::SmInstruction::{
    Comment, DecrActive, If, IncrActive, InlineComment, PopToActive, PushActive, PushZero,
    SaveActive, Swap, ToggleErrors, While,
};
use tm::stack::{SmInstruction, StackMachine};

fn make_sm() -> StackMachine {
    StackMachine::new(Vec::new())
}

fn run_ok(sm: &mut StackMachine, instructions: Vec<SmInstruction>) {
    sm.run(&instructions).expect("machine fault");
}

#[test]
fn test_get_active() {
    let mut sm = make_sm();
    run_ok(&mut sm, vec![IncrActive]);
    assert_eq!(sm.get_active(), 1);
}

#[test]
fn test_read_to_active() {
    let mut sm = StackMachine::new(b"\x09".to_vec());
    run_ok(&mut sm, vec![SmInstruction::ReadToActive]);
    assert_eq!(sm.get_active(), 9);
}

#[test]
fn test_incr_active() {
    let mut sm = make_sm();
    run_ok(&mut sm, vec![IncrActive]);
    assert_eq!(sm.get_active(), 1);
}

#[test]
fn test_decr_active() {
    let mut sm = make_sm();
    run_ok(&mut sm, vec![DecrActive]);
    assert_eq!(sm.get_active(), -1);
}

#[test]
fn test_save_active() {
    let mut sm = make_sm();
    run_ok(&mut sm, vec![IncrActive, SaveActive]);
    assert_eq!(sm.get_active(), 1);
    assert_eq!(sm.get_inactive(), 1);
}

#[test]
fn test_swap() {
    let mut sm = make_sm();
    run_ok(&mut sm, vec![IncrActive, Swap]);
    assert_eq!(sm.get_active(), 0);
    assert_eq!(sm.get_inactive(), 1);
}

#[test]
fn test_push_zero() {
    let mut sm = make_sm();
    run_ok(&mut sm, vec![IncrActive, PushZero]);
    assert_eq!(sm.get_active(), 1);
    assert_eq!(sm.get_stack(), &vec![0]);
}

#[test]
fn test_push_active() {
    let mut sm = make_sm();
    run_ok(&mut sm, vec![IncrActive, PushActive]);
    assert_eq!(sm.get_active(), 1);
    assert_eq!(sm.get_stack(), &vec![1]);
}

#[test]
fn test_pop_to_active() {
    let mut sm = make_sm();
    run_ok(&mut sm, vec![IncrActive, PushZero, PopToActive]);
    assert_eq!(sm.get_active(), 0);
    assert!(sm.get_stack().is_empty());
}

#[test]
fn test_pop_to_active_on_empty_no_error() {
    let mut sm = make_sm();
    run_ok(&mut sm, vec![ToggleErrors, PopToActive]);
}

#[test]
fn test_if_positive() {
    let mut sm = make_sm();
    // The If does run.
    run_ok(&mut sm, vec![If(vec![IncrActive, Swap])]);
    assert_eq!(sm.get_active(), 0);
    assert_eq!(sm.get_inactive(), 1);
}

#[test]
fn test_if_negative() {
    let mut sm = make_sm();
    // The If does not run.
    run_ok(&mut sm, vec![IncrActive, If(vec![Swap])]);
    assert_eq!(sm.get_active(), 1);
    assert_eq!(sm.get_inactive(), 0);
}

#[test]
fn test_while() {
    let mut sm = make_sm();
    run_ok(
        &mut sm,
        vec![
            IncrActive,
            IncrActive,
            IncrActive,
            While(vec![PushZero, DecrActive]),
        ],
    );
    assert_eq!(sm.get_active(), 0);
    assert_eq!(sm.get_stack(), &vec![0, 0, 0]);
}

#[test]
fn test_comment() {
    let mut sm = make_sm();
    // A comment does nothing.
    run_ok(&mut sm, vec![Comment("Comment!".into())]);
    assert_eq!(sm.get_active(), 0);
    assert_eq!(sm.get_inactive(), 0);
    assert!(sm.get_stack().is_empty());
}

#[test]
fn test_inline_comment() {
    let mut sm = make_sm();
    // The comment does nothing; the wrapped instruction runs.
    run_ok(
        &mut sm,
        vec![InlineComment(Box::new(IncrActive), "Comment!".into())],
    );
    assert_eq!(sm.get_active(), 1);
    assert_eq!(sm.get_inactive(), 0);
    assert!(sm.get_stack().is_empty());
}

#[test]
fn pop_on_empty_with_errors_is_a_fault() {
    let mut sm = make_sm();
    let r = sm.run(&vec![PopToActive]);
    assert_eq!(r, Err(tm::error::SmError::PopOnEmptyStack));
    let msg = tm::error::SmError::PopOnEmptyStack.to_message();
    assert!(msg.contains("Pop on empty stack"));
}
