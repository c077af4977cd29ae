//! The textual rendering of substrate programs.

use tm::ast::{Program, State};
use tm::stack::SmInstruction;
use tm::turing::TuringMachine;

fn render(instr: &SmInstruction) -> String {
    let mut out = String::new();
    instr.render_into(&mut out, 0);
    out
}

#[test]
fn leaves_render_as_their_names() {
    assert_eq!(render(&SmInstruction::IncrActive), "IncrActive\n");
    assert_eq!(render(&SmInstruction::ToggleErrors), "ToggleErrors\n");
}

#[test]
fn blocks_render_bracketed_and_indented() {
    let instr = SmInstruction::While(vec![
        SmInstruction::DecrActive,
        SmInstruction::If(vec![SmInstruction::Swap]),
    ]);
    assert_eq!(
        render(&instr),
        "While {\n\tDecrActive\n\tIf {\n\t\tSwap\n\t}\n}\n"
    );
}

#[test]
fn comments_render_on_dedicated_lines() {
    let instr = SmInstruction::InlineComment(
        Box::new(SmInstruction::PushZero),
        "reset".to_string(),
    );
    assert_eq!(render(&instr), "// reset\nPushZero\n");
}

#[test]
fn an_emitted_program_starts_with_the_prelude() {
    let tm = TuringMachine::new(Program {
        states: vec![State {
            id: 1,
            initial: true,
            accepting: true,
            transitions: vec![],
        }],
    })
    .unwrap();
    let text = tm.emit();
    assert!(text.starts_with("ToggleErrors\nReadToActive\nWhile {\n"));
    assert!(text.ends_with("}\n"));
    // The single increment that selects initial state 1.
    assert!(text.contains("\nIncrActive\nWhile {\n"));
}
