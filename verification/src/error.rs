//! Errors reported by the poker hand evaluator.

use vstd::prelude::*;

verus! {

/// What can go wrong while building or evaluating a hand.
#[derive(Clone, Copy, Debug, PartialEq, Eq, Structural)]
pub enum HandError {
    /// A card was requested with a rank outside 2..=14.
    InvalidRank,
    /// A card was added to a hand that already holds five cards.
    MaxHandExceeded,
    /// A hand was evaluated while it did not hold exactly five cards.
    WrongCardCount,
    /// A hand was to be ordered although no category could be determined.
    NoCategory,
}

} // verus!
