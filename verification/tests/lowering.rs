//! The shape and the behavior of lowered code, checked on concrete
//! values: block ordering, bounded nesting, and the tape idioms.

use tm::ast::{Program, State, TapeInstruction, Transition};
use tm::compile::Compile;
use tm::stack::{SmInstruction, StackMachine};
use tm::turing::TuringMachine;

/// The nesting depth of an instruction tree.
fn depth(instr: &SmInstruction) -> usize {
    match instr {
        SmInstruction::If(body) | SmInstruction::While(body) => {
            1 + body.iter().map(depth).max().unwrap_or(0)
        }
        SmInstruction::InlineComment(inner, _) => depth(inner),
        _ => 1,
    }
}

fn two_state_program(first_accepting: bool) -> Program {
    // Declared out of order on purpose: state 2 first, state 1 second.
    Program {
        states: vec![
            State {
                id: 2,
                initial: false,
                accepting: !first_accepting,
                transitions: vec![],
            },
            State {
                id: 1,
                initial: true,
                accepting: first_accepting,
                transitions: vec![Transition {
                    match_char: b'a',
                    tape_instruction: TapeInstruction::Right,
                    next_state: 2,
                }],
            },
        ],
    }
}

#[test]
fn the_lowered_program_nests_at_most_five_levels() {
    let tm = TuringMachine::new(two_state_program(true)).unwrap();
    let max = tm.instructions().iter().map(depth).max().unwrap();
    assert!(max <= 5, "nesting depth {} exceeds the bound", max);
}

/// Whether a state block's HALT path pushes the ACCEPT sentinel: the
/// accepting variant ends in `PushZero`, the rejecting one in
/// `IncrActive`.
fn block_is_accepting(block_body: &[SmInstruction]) -> bool {
    let halt = block_body
        .iter()
        .find_map(|i| match i {
            SmInstruction::While(b) => Some(b),
            _ => None,
        })
        .expect("every state block holds the HALT check");
    matches!(halt.last(), Some(SmInstruction::PushZero))
}

#[test]
fn state_blocks_come_out_in_ascending_id_order() {
    // State 1 accepting, state 2 not, but declared in the order 2, 1:
    // the first emitted block must still be state 1's.
    let tm = TuringMachine::new(two_state_program(true)).unwrap();
    let main_loop = tm
        .instructions()
        .iter()
        .filter_map(|i| match i {
            SmInstruction::While(b)
                if b.iter().any(|e| matches!(e, SmInstruction::If(_))) =>
            {
                Some(b)
            }
            _ => None,
        })
        .next()
        .expect("the program has a main loop");
    let blocks: Vec<&Vec<SmInstruction>> = main_loop
        .iter()
        .filter_map(|i| match i {
            SmInstruction::If(b) => Some(b),
            _ => None,
        })
        .collect();
    assert_eq!(blocks.len(), 2);
    assert!(block_is_accepting(blocks[0]));
    assert!(!block_is_accepting(blocks[1]));
}

/// Builds a machine state with the packed left tape in `I` and the given
/// head on the stack, runs `code`, and hands the machine back.
fn run_tape_code(lt: i64, head: u8, code: Vec<SmInstruction>) -> StackMachine {
    let mut setup: Vec<SmInstruction> = vec![SmInstruction::ToggleErrors];
    for _ in 0..head {
        setup.push(SmInstruction::IncrActive);
    }
    setup.push(SmInstruction::PushActive);
    setup.push(SmInstruction::PushZero);
    setup.push(SmInstruction::PopToActive);
    for _ in 0..lt {
        setup.push(SmInstruction::IncrActive);
    }
    setup.push(SmInstruction::SaveActive);
    setup.extend(code);
    let mut sm = StackMachine::new(Vec::new());
    sm.run(&setup).expect("tape code must not fault");
    sm
}

#[test]
fn lowered_write_puts_the_character_under_the_head() {
    // Write 'q' over head 'a' with left tape 300: head becomes 'q', the
    // packed left tape is untouched.
    let code = TapeInstruction::Write(b'q').compile();
    let sm = run_tape_code(300, b'a', code);
    assert_eq!(sm.get_inactive(), 300);
    assert_eq!(sm.get_stack(), &vec![b'q' as i64]);
}

#[test]
fn lowered_right_packs_the_head_into_the_left_tape() {
    let code = TapeInstruction::Right.compile();
    let sm = run_tape_code(5, b'a', code);
    assert_eq!(sm.get_inactive(), 5 * 128 + b'a' as i64);
    assert!(sm.get_stack().is_empty());
}

#[test]
fn lowered_left_unpacks_the_head_from_the_left_tape() {
    // LT = 5 * 128 + 'a': moving left exposes 'a' and leaves LT = 5.
    let code = TapeInstruction::Left.compile();
    let sm = run_tape_code(5 * 128 + b'a' as i64, b'z', code);
    assert_eq!(sm.get_inactive(), 5);
    // The stack is bottom first: the old head stays, the new head 'a'
    // sits on top of it.
    assert_eq!(sm.get_stack(), &vec![b'z' as i64, b'a' as i64]);
}

#[test]
fn lowered_left_on_an_empty_left_tape_exposes_the_blank() {
    let code = TapeInstruction::Left.compile();
    let sm = run_tape_code(0, b'z', code);
    assert_eq!(sm.get_inactive(), 0);
    assert_eq!(sm.get_stack(), &vec![b'z' as i64, 0]);
}

#[test]
fn lowered_right_then_left_restores_tape_and_head() {
    let mut code = TapeInstruction::Right.compile();
    code.extend(TapeInstruction::Left.compile());
    let sm = run_tape_code(9, b'k', code);
    assert_eq!(sm.get_inactive(), 9);
    assert_eq!(sm.get_stack(), &vec![b'k' as i64]);
}

#[test]
fn swap_exchanges_and_other_instructions_keep_the_inactive_variable() {
    // Swap exchanges the variables; the plain instructions leave the
    // inactive one alone.
    let mut sm = StackMachine::new(b"x".to_vec());
    sm.run(&vec![
        SmInstruction::IncrActive,
        SmInstruction::Swap,
    ])
    .unwrap();
    assert_eq!(sm.get_active(), 0);
    assert_eq!(sm.get_inactive(), 1);
    sm.run(&vec![
        SmInstruction::ReadToActive,
        SmInstruction::IncrActive,
        SmInstruction::DecrActive,
        SmInstruction::PushZero,
        SmInstruction::PushActive,
        SmInstruction::PopToActive,
        SmInstruction::PrintActive,
    ])
    .unwrap();
    assert_eq!(sm.get_inactive(), 1);
}

#[test]
fn a_while_loop_terminates_once_the_body_drives_a_down() {
    // The body decrements, so the loop terminates with A = 0.
    let mut sm = StackMachine::new(Vec::new());
    sm.run(&vec![
        SmInstruction::IncrActive,
        SmInstruction::IncrActive,
        SmInstruction::While(vec![SmInstruction::DecrActive]),
    ])
    .unwrap();
    assert_eq!(sm.get_active(), 0);
}

#[test]
fn decimal_rendering_is_exact() {
    assert_eq!(tm::utils::u64_to_string(0), "0");
    assert_eq!(tm::utils::u64_to_string(12345), "12345");
    assert_eq!(
        tm::utils::u64_to_string(u64::MAX),
        "18446744073709551615"
    );
}
