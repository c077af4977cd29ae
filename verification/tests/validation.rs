//! The validator's error taxonomy: each fault on an input that triggers
//! it, and a clean bill for a well-formed description.

use tm::ast::{Program, State, TapeInstruction, Transition};
use tm::error::CompilerErrors;

fn assert_error(msg: &str, result: Result<tm::validate::Valid, CompilerErrors>) {
    match result {
        Ok(_) => panic!("expected an error containing {:?} but validation passed", msg),
        Err(errors) => {
            let text = errors.to_message();
            assert!(
                text.contains(msg),
                "expected error text {:?} to contain {:?}",
                text,
                msg
            );
        }
    }
}

#[test]
fn test_invalid_state_id_error() {
    let result = Program {
        states: vec![State {
            id: 0, // Invalid
            initial: true,
            accepting: true,
            transitions: vec![],
        }],
    }
    .validate_into();
    assert_error("Invalid state ID: 0", result);
}

#[test]
fn test_duplicate_state_id_error() {
    let result = Program {
        states: vec![
            State {
                id: 1,
                initial: true,
                accepting: true,
                transitions: vec![],
            },
            State {
                id: 1,
                initial: false,
                accepting: false,
                transitions: vec![],
            },
        ],
    }
    .validate_into();
    assert_error("State ID defined multiple times: 1", result);
}

#[test]
fn test_no_initial_state_error() {
    let result = Program {
        states: vec![State {
            id: 1,
            initial: false,
            accepting: true,
            transitions: vec![],
        }],
    }
    .validate_into();
    assert_error("No state marked as initial", result);
}

#[test]
fn test_multiple_initial_states_error() {
    let result = Program {
        states: vec![
            State {
                id: 1,
                initial: true,
                accepting: true,
                transitions: vec![],
            },
            State {
                id: 2,
                initial: true,
                accepting: true,
                transitions: vec![],
            },
        ],
    }
    .validate_into();
    assert_error("Multiple states marked as initial: [1, 2]", result);
}

#[test]
fn test_undefined_state_error() {
    let result = Program {
        states: vec![State {
            id: 1,
            initial: false,
            accepting: true,
            transitions: vec![Transition {
                match_char: 32,
                tape_instruction: TapeInstruction::Left,
                next_state: 2, // Invalid
            }],
        }],
    }
    .validate_into();
    assert_error("Undefined state: 2", result);
}

#[test]
fn test_char_zero_error() {
    let result = Program {
        states: vec![State {
            id: 1,
            initial: false,
            accepting: true,
            transitions: vec![Transition {
                match_char: 0, // Invalid
                tape_instruction: TapeInstruction::Left,
                next_state: 1,
            }],
        }],
    }
    .validate_into();
    assert_error("Illegal character: \x00", result);
}

#[test]
fn test_char_too_large_error() {
    let result = Program {
        states: vec![State {
            id: 1,
            initial: false,
            accepting: true,
            transitions: vec![Transition {
                match_char: 0x80, // 128 - Invalid
                tape_instruction: TapeInstruction::Left,
                next_state: 1,
            }],
        }],
    }
    .validate_into();
    assert_error("Illegal character: \u{80}", result);
}

#[test]
fn a_thrice_declared_id_is_reported_once() {
    // One duplicated id value gives exactly one error, however many
    // states carry it.
    let state = |initial: bool| State {
        id: 7,
        initial,
        accepting: false,
        transitions: vec![],
    };
    let result = Program {
        states: vec![state(true), state(false), state(false)],
    }
    .validate_into();
    let errors = result.err().expect("validation must fail");
    let text = errors.to_message();
    assert_eq!(
        text.matches("State ID defined multiple times: 7").count(),
        1,
        "got: {:?}",
        text
    );
}

#[test]
fn two_duplicated_ids_are_each_reported_once() {
    let state = |id: usize, initial: bool| State {
        id,
        initial,
        accepting: false,
        transitions: vec![],
    };
    let result = Program {
        states: vec![
            state(1, true),
            state(2, false),
            state(1, false),
            state(2, false),
        ],
    }
    .validate_into();
    let errors = result.err().expect("validation must fail");
    let text = errors.to_message();
    assert_eq!(text.matches("State ID defined multiple times: 1").count(), 1);
    assert_eq!(text.matches("State ID defined multiple times: 2").count(), 1);
}

#[test]
fn a_well_formed_program_validates_cleanly() {
    let result = Program {
        states: vec![
            State {
                id: 1,
                initial: true,
                accepting: false,
                transitions: vec![Transition {
                    match_char: b'a',
                    tape_instruction: TapeInstruction::Right,
                    next_state: 2,
                }],
            },
            State {
                id: 2,
                initial: false,
                accepting: true,
                transitions: vec![],
            },
        ],
    }
    .validate_into();
    assert!(result.is_ok());
}

#[test]
fn a_description_accumulates_every_fault() {
    // One description with four distinct faults reports all of them.
    let result = Program {
        states: vec![
            State {
                id: 0,
                initial: false,
                accepting: false,
                transitions: vec![Transition {
                    match_char: 0,
                    tape_instruction: TapeInstruction::Left,
                    next_state: 9,
                }],
            },
            State {
                id: 0,
                initial: false,
                accepting: false,
                transitions: vec![],
            },
        ],
    }
    .validate_into();
    let errors = result.err().expect("validation must fail");
    let text = errors.to_message();
    assert!(text.contains("Invalid state ID: 0"));
    assert!(text.contains("State ID defined multiple times: 0"));
    assert!(text.contains("Illegal character: \x00"));
    assert!(text.contains("Undefined state: 9"));
    assert!(text.contains("No state marked as initial"));
}

#[test]
fn validate_char_accepts_exactly_the_alphabet() {
    assert!(tm::utils::validate_char(0).is_err());
    assert!(tm::utils::validate_char(1).is_ok());
    assert!(tm::utils::validate_char(127).is_ok());
    assert!(tm::utils::validate_char(128).is_err());
    assert!(tm::utils::validate_char(255).is_err());
}
