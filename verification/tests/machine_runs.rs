//! End-to-end runs of compiled Turing machines, and the input checks the
//! facade makes before running.

use tm::ast::{Program, State, TapeInstruction, Transition};
use tm::turing::TuringMachine;

/// A machine that accepts exactly the tape `foo`: it walks over `f`,
/// `o`, `o`, and accepts in state 4 only at the end of the written tape —
/// any further character sends it to the dead state 5.
fn foo_machine() -> TuringMachine {
    let mut reject_rest = Vec::new();
    for c in 1u8..128 {
        reject_rest.push(Transition {
            match_char: c,
            tape_instruction: TapeInstruction::Right,
            next_state: 5,
        });
    }
    TuringMachine::new(Program {
        states: vec![
            State {
                id: 1,
                initial: true,
                accepting: false,
                transitions: vec![Transition {
                    match_char: b'f',
                    tape_instruction: TapeInstruction::Right,
                    next_state: 2,
                }],
            },
            State {
                id: 2,
                initial: false,
                accepting: false,
                transitions: vec![Transition {
                    match_char: b'o',
                    tape_instruction: TapeInstruction::Right,
                    next_state: 3,
                }],
            },
            State {
                id: 3,
                initial: false,
                accepting: false,
                transitions: vec![Transition {
                    match_char: b'o',
                    tape_instruction: TapeInstruction::Right,
                    next_state: 4,
                }],
            },
            State {
                id: 4,
                initial: false,
                accepting: true,
                transitions: reject_rest,
            },
            State {
                id: 5,
                initial: false,
                accepting: false,
                transitions: vec![],
            },
        ],
    })
    .expect("the machine is well-formed")
}

/// Runs a machine on an already-reversed tape string and checks the
/// verdict at the tail of the output.
fn assert_tm(tm: &TuringMachine, reversed_tape: &str, should_accept: bool) {
    let output = tm
        .run_with_output(reversed_tape.as_bytes().to_vec())
        .expect("the machine must run to completion");
    let text = String::from_utf8(output).expect("output is ASCII");
    let expected = if should_accept { "ACCEPT" } else { "REJECT" };
    assert!(
        text.trim().ends_with(expected),
        "expected {:?}, machine wrote {:?}",
        expected,
        text
    );
}

#[test]
fn test_simple_machine() {
    // The machine matches the tape "foo"; inputs are handed over
    // reversed, as the facade expects.
    let tm = foo_machine();
    let foo: String = "foo".chars().rev().collect();
    let food: String = "food".chars().rev().collect();
    assert_tm(&tm, &foo, true);
    assert_tm(&tm, &food, false);
}

#[test]
fn a_tape_with_a_stray_prefix_rejects() {
    // "oofd" is the tape "dfoo": the machine halts at once in its
    // non-accepting initial state.
    let tm = foo_machine();
    assert_tm(&tm, "oofd", false);
}

#[test]
fn empty_input_on_an_accepting_initial_state_accepts() {
    let tm = TuringMachine::new(Program {
        states: vec![State {
            id: 1,
            initial: true,
            accepting: true,
            transitions: vec![],
        }],
    })
    .unwrap();
    assert_tm(&tm, "", true);
}

#[test]
fn unmatched_input_on_a_rejecting_initial_state_rejects() {
    let tm = TuringMachine::new(Program {
        states: vec![State {
            id: 1,
            initial: true,
            accepting: false,
            transitions: vec![],
        }],
    })
    .unwrap();
    assert_tm(&tm, "a", false);
}

#[test]
fn test_validation_runs() {
    // Program validation is part of compilation.
    let tm_result = TuringMachine::new(Program {
        states: vec![State {
            id: 0,
            initial: true,
            accepting: true,
            transitions: vec![],
        }],
    });
    let errors = tm_result.err().expect("an invalid program must not compile");
    assert!(errors.to_message().contains("Invalid state ID: 0"));
}

#[test]
fn test_blank_in_input_error() {
    let tm = TuringMachine::new(Program {
        states: vec![State {
            id: 1,
            initial: true,
            accepting: true,
            transitions: vec![],
        }],
    })
    .unwrap();
    let err = tm.run_with_output(b"\x00".to_vec()).err().unwrap();
    assert!(err.to_message().contains("Blank char in input"));
}

#[test]
fn test_non_ascii_in_input_error() {
    let tm = TuringMachine::new(Program {
        states: vec![State {
            id: 1,
            initial: true,
            accepting: true,
            transitions: vec![],
        }],
    })
    .unwrap();
    let err = tm
        .run_with_output("\u{80}".as_bytes().to_vec())
        .err()
        .unwrap();
    assert!(err.to_message().contains("the byte at index 0 is not ASCII"));
}

#[test]
fn test_null_in_input() {
    let tm = TuringMachine::new(Program {
        states: vec![State {
            id: 1,
            initial: true,
            accepting: true,
            transitions: vec![],
        }],
    })
    .unwrap();
    let err = tm.run_with_output(b"\x00".to_vec()).err().unwrap();
    assert!(err.to_message().contains("Invalid character: \x00"));
}

#[test]
fn every_offending_input_position_is_reported() {
    let tm = TuringMachine::new(Program {
        states: vec![State {
            id: 1,
            initial: true,
            accepting: true,
            transitions: vec![],
        }],
    })
    .unwrap();
    let err = tm.run_with_output(vec![b'a', 0, 0xC3, b'b']).err().unwrap();
    let text = err.to_message();
    assert!(text.contains("Invalid character: \x00"));
    assert!(text.contains("the byte at index 2 is not ASCII"));
}

#[test]
fn identical_runs_give_identical_output() {
    // The interpreter is deterministic: same program, same input, same
    // bytes out.
    let tm = foo_machine();
    let first = tm.run_with_output(b"oof".to_vec()).unwrap();
    let second = tm.run_with_output(b"oof".to_vec()).unwrap();
    assert_eq!(first, second);
    assert_eq!(String::from_utf8(first).unwrap(), "ACCEPT\n");
}

#[test]
fn a_write_transition_replaces_the_head() {
    // State 1 rewrites `a` to `b` and moves to state 2, which accepts
    // only on seeing `b` after moving right over it... it checks the
    // rewrite by matching `b` on the same cell.
    let tm = TuringMachine::new(Program {
        states: vec![
            State {
                id: 1,
                initial: true,
                accepting: false,
                transitions: vec![Transition {
                    match_char: b'a',
                    tape_instruction: TapeInstruction::Write(b'b'),
                    next_state: 2,
                }],
            },
            State {
                id: 2,
                initial: false,
                accepting: false,
                transitions: vec![Transition {
                    match_char: b'b',
                    tape_instruction: TapeInstruction::Right,
                    next_state: 3,
                }],
            },
            State {
                id: 3,
                initial: false,
                accepting: true,
                transitions: vec![],
            },
        ],
    })
    .unwrap();
    assert_tm(&tm, "a", true);
    assert_tm(&tm, "b", false);
}

#[test]
fn moving_right_then_left_returns_to_the_same_cell() {
    // State 1 moves right over `x`, state 2 moves left over anything it
    // finds (the blank), and state 3 accepts only if the head reads `x`
    // again.
    let tm = TuringMachine::new(Program {
        states: vec![
            State {
                id: 1,
                initial: true,
                accepting: false,
                transitions: vec![Transition {
                    match_char: b'x',
                    tape_instruction: TapeInstruction::Right,
                    next_state: 2,
                }],
            },
            State {
                id: 2,
                initial: false,
                accepting: false,
                transitions: vec![Transition {
                    match_char: b'y',
                    tape_instruction: TapeInstruction::Left,
                    next_state: 3,
                }],
            },
            State {
                id: 3,
                initial: false,
                accepting: false,
                transitions: vec![Transition {
                    match_char: b'x',
                    tape_instruction: TapeInstruction::Right,
                    next_state: 4,
                }],
            },
            State {
                id: 4,
                initial: false,
                accepting: true,
                transitions: vec![],
            },
        ],
    })
    .unwrap();
    // Tape "xy" (supplied reversed as "yx"): right over x, left from y,
    // and x is under the head again.
    assert_tm(&tm, "yx", true);
    assert_tm(&tm, "yz", false);
}
