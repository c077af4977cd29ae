//! In-memory representation of a Turing machine description.
//!
//! Characters of the tape alphabet are integers in `[0, ALPHABET_SIZE)`;
//! `0` is the blank character, implicit on the tape beyond the written
//! cells, and forbidden both as an input character and as a transition's
//! match character.

use vstd::prelude::*;

verus! {

/// Number of bits used to represent one character of the alphabet.
pub const CHAR_SIZE_BITS: usize = 7;

/// The number of characters the machine can recognize (`2 ^ CHAR_SIZE_BITS`).
pub const ALPHABET_SIZE: u8 = 128;

/// Unique numerical identifier of a state. Valid programs use ids `>= 1`;
/// `0` is reserved as the HALT/ACCEPT sentinel in lowered programs.
pub type StateId = usize;

/// One character of the tape alphabet, as its code point in `[0, 128)`.
pub type Char = u8;

/// The action a transition performs on the tape: move the head, or write
/// a character under it. A transition either moves or writes, never both.
#[derive(Clone, Debug)]
pub enum TapeInstruction {
    Left,
    Right,
    Write(Char),
}

/// One transition, fired from its owning state when the character under
/// the head equals `match_char`.
#[derive(Clone, Debug)]
pub struct Transition {
    /// The character on the tape that triggers this transition.
    pub match_char: Char,
    /// The instruction to execute on the tape.
    pub tape_instruction: TapeInstruction,
    /// The state to transition to next.
    pub next_state: StateId,
}

/// One state in the machine.
#[derive(Clone, Debug)]
pub struct State {
    /// Unique numerical id for this state (`>= 1` in valid programs).
    pub id: StateId,
    /// Is this the initial state? True for exactly one state in a valid
    /// program.
    pub initial: bool,
    /// Is this an accepting state?
    pub accepting: bool,
    /// All transitions that can be made from this state.
    pub transitions: Vec<Transition>,
}

/// An entire Turing machine description: the root of the AST.
#[derive(Clone, Debug)]
pub struct Program {
    pub states: Vec<State>,
}

} // verus!
