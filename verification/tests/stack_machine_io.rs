//! The same instruction-level checks exercised through a machine that
//! reads real input bytes, plus checks of what the machine prints.

use tm::stack::SmInstruction::{
    Comment, DecrActive, If, IncrActive, InlineComment, PopToActive, PrintActive, PushActive,
    PushZero, ReadToActive, SaveActive, Swap, ToggleErrors, While,
};
use tm::stack::{SmInstruction, StackMachine};

fn run_with_input(input: &[u8], instructions: Vec<SmInstruction>) -> StackMachine {
    let mut sm = StackMachine::new(input.to_vec());
    sm.run(&instructions).expect("machine fault");
    sm
}

fn run_machine(instructions: Vec<SmInstruction>) -> StackMachine {
    run_with_input(b"", instructions)
}

#[test]
fn stack_test_read_to_active() {
    let sm = run_with_input(b"wee", vec![ReadToActive]);
    assert_eq!(sm.get_active(), 119);
}

#[test]
fn stack_test_incr_active() {
    let sm = run_machine(vec![IncrActive]);
    assert_eq!(sm.get_active(), 1);
}

#[test]
fn stack_test_decr_active() {
    let sm = run_machine(vec![DecrActive]);
    assert_eq!(sm.get_active(), -1);
}

#[test]
fn stack_test_save_active() {
    let sm = run_machine(vec![IncrActive, SaveActive]);
    assert_eq!(sm.get_active(), 1);
    assert_eq!(sm.get_inactive(), 1);
}

#[test]
fn stack_test_swap() {
    let sm = run_machine(vec![IncrActive, Swap]);
    assert_eq!(sm.get_active(), 0);
    assert_eq!(sm.get_inactive(), 1);
}

#[test]
fn stack_test_push_zero() {
    let sm = run_machine(vec![IncrActive, PushZero]);
    assert_eq!(sm.get_active(), 1);
    assert_eq!(sm.get_stack(), &vec![0]);
}

#[test]
fn stack_test_push_active() {
    let sm = run_machine(vec![IncrActive, PushActive]);
    assert_eq!(sm.get_active(), 1);
    assert_eq!(sm.get_stack(), &vec![1]);
}

#[test]
fn stack_test_pop_to_active() {
    let sm = run_machine(vec![IncrActive, PushZero, PopToActive]);
    assert_eq!(sm.get_active(), 0);
    assert!(sm.get_stack().is_empty());
}

#[test]
fn stack_test_pop_to_active_on_empty_no_error() {
    run_machine(vec![ToggleErrors, PopToActive]);
}

#[test]
fn stack_test_if_positive() {
    let sm = run_machine(vec![If(vec![IncrActive, Swap])]);
    assert_eq!(sm.get_active(), 0);
    assert_eq!(sm.get_inactive(), 1);
}

#[test]
fn stack_test_if_negative() {
    let sm = run_machine(vec![IncrActive, If(vec![Swap])]);
    assert_eq!(sm.get_active(), 1);
    assert_eq!(sm.get_inactive(), 0);
}

#[test]
fn stack_test_while() {
    let sm = run_machine(vec![
        IncrActive,
        IncrActive,
        IncrActive,
        While(vec![PushZero, DecrActive]),
    ]);
    assert_eq!(sm.get_active(), 0);
    assert_eq!(sm.get_stack(), &vec![0, 0, 0]);
}

#[test]
fn stack_test_comment() {
    let sm = run_machine(vec![Comment("Comment!".into())]);
    assert_eq!(sm.get_active(), 0);
    assert_eq!(sm.get_inactive(), 0);
    assert!(sm.get_stack().is_empty());
}

#[test]
fn stack_test_inline_comment() {
    let sm = run_machine(vec![InlineComment(Box::new(IncrActive), "Comment!".into())]);
    assert_eq!(sm.get_active(), 1);
    assert_eq!(sm.get_inactive(), 0);
    assert!(sm.get_stack().is_empty());
}

#[test]
fn print_emits_the_low_byte() {
    // Count up to 'A' and print it.
    let mut prog: Vec<SmInstruction> = Vec::new();
    for _ in 0..65 {
        prog.push(IncrActive);
    }
    prog.push(PrintActive);
    let sm = run_machine(prog);
    assert_eq!(sm.get_output(), &vec![65]);
}

#[test]
fn print_of_a_negative_value_masks_to_a_byte() {
    // A = -1 prints as 0xFF, the low byte of the two's complement value.
    let sm = run_machine(vec![DecrActive, PrintActive]);
    assert_eq!(sm.get_output(), &vec![255]);
}

#[test]
fn reading_past_the_end_leaves_the_active_variable() {
    // One byte of input: the second read changes nothing.
    let sm = run_with_input(b"\x07", vec![ReadToActive, ReadToActive]);
    assert_eq!(sm.get_active(), 7);
}

#[test]
fn state_dump_prints_registers_and_stack() {
    let sm = run_with_input(
        b"",
        vec![
            IncrActive,
            PushActive,
            PushZero,
            IncrActive,
            SmInstruction::PrintState,
        ],
    );
    let text = String::from_utf8(sm.get_output().clone()).unwrap();
    assert_eq!(text, "A=2 I=0 S=[0,1]\n");
}
