use vstd::prelude::*;

pub mod counts;
pub mod drop_map;
pub mod checkers;

verus! {

/// The judgment given to one position of a guess.
#[derive(Clone, Copy, PartialEq, Eq, Debug, Structural)]
pub enum Clue {
    /// The same character stands at this position of the fixed word.
    Exact,
    /// The character was credited from elsewhere in the fixed word.
    Present,
    /// No credit was left for this character.
    Absent,
}

} // verus!
