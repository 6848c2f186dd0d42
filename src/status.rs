use vstd::prelude::*;

verus! {

/// The standing of a game: over with a single winner, over with a tie at the
/// top, or still in play.
#[derive(Clone, Debug, PartialEq, Eq)]
pub enum Outcome {
    Winner(String),
    Tie,
    NotOver,
}

impl Outcome {
    /// Whether the game has ended.
    pub fn is_over(&self) -> (r: bool)
        ensures
            r <==> !(self is NotOver),
    {
        !matches!(self, Outcome::NotOver)
    }
}

/// What a move request came to.
#[derive(PartialEq, Eq, Structural, Clone, Copy, Debug)]
pub enum MoveStatus {
    /// The last seed fell into the mover's own store: the mover plays again.
    GoAgain,
    /// The selected pit index is not on the board: nothing changed.
    OutOfBounds,
    /// The selected pit holds no seeds: nothing changed.
    EmptyCell,
    /// The last seed fell into an empty pit: the turn passed on.
    Done,
}

} // verus!
