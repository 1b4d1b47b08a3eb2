//! The ten categories of a five-card hand, and the rule that picks one.

use vstd::prelude::*;
use crate::card::Card;
use crate::histogram::count_at;
use crate::histogram::rank_histogram;
use crate::ranks::is_straight;
use crate::ranks::lowest;
use crate::ranks::ranks_of;

verus! {

/// The categories of a hand, strongest first.
#[derive(Clone, Copy, Debug, PartialEq, Eq, PartialOrd, Ord, Structural)]
pub enum PokerHandType {
    RoyalFlush,
    StraightFlush,
    FourOfAKind,
    FullHouse,
    Flush,
    Straight,
    ThreeOfAKind,
    TwoPair,
    Pair,
    HighCard,
}

impl PokerHandType {
    /// The place of this category among the ten, 0 for the strongest.
    pub open spec fn place(self) -> int {
        match self {
            PokerHandType::RoyalFlush => 0,
            PokerHandType::StraightFlush => 1,
            PokerHandType::FourOfAKind => 2,
            PokerHandType::FullHouse => 3,
            PokerHandType::Flush => 4,
            PokerHandType::Straight => 5,
            PokerHandType::ThreeOfAKind => 6,
            PokerHandType::TwoPair => 7,
            PokerHandType::Pair => 8,
            PokerHandType::HighCard => 9,
        }
    }

    /// The place of this category among the ten, 0 for the strongest.
    pub fn strength_index(&self) -> (r: u8)
        ensures
            r == self.place(),
    {
        match self {
            PokerHandType::RoyalFlush => 0,
            PokerHandType::StraightFlush => 1,
            PokerHandType::FourOfAKind => 2,
            PokerHandType::FullHouse => 3,
            PokerHandType::Flush => 4,
            PokerHandType::Straight => 5,
            PokerHandType::ThreeOfAKind => 6,
            PokerHandType::TwoPair => 7,
            PokerHandType::Pair => 8,
            PokerHandType::HighCard => 9,
        }
    }
}

/// Whether all of `cards` are of the suit of the first.
pub open spec fn all_same_suit(cards: Seq<Card>) -> bool {
    forall|i: int| 0 <= i < cards.len() ==> (#[trigger] cards[i]).suit() == cards[0].suit()
}

/// The category that follows from what a hand shows, the first rule that
/// applies deciding: `top` and `second` are the two highest numbers of
/// occurrences of a rank, `straight` and `flush` say whether the ranks run
/// and the suits agree, and `low` is the lowest rank.
pub open spec fn category_for(
    top: int,
    second: int,
    straight: bool,
    flush: bool,
    low: u8,
) -> PokerHandType {
    if top == 4 {
        PokerHandType::FourOfAKind
    } else if top == 3 && second == 2 {
        PokerHandType::FullHouse
    } else if top == 3 && second == 1 {
        PokerHandType::ThreeOfAKind
    } else if top == 2 && second == 2 {
        PokerHandType::TwoPair
    } else if top == 2 && second == 1 {
        PokerHandType::Pair
    } else if straight && flush {
        if low == 10 {
            PokerHandType::RoyalFlush
        } else {
            PokerHandType::StraightFlush
        }
    } else if straight {
        PokerHandType::Straight
    } else if flush {
        PokerHandType::Flush
    } else {
        PokerHandType::HighCard
    }
}

/// The category of the five cards `cards`.
pub open spec fn hand_category(cards: Seq<Card>) -> PokerHandType
    recommends
        cards.len() == 5,
{
    let ranks = ranks_of(cards);
    let h = rank_histogram(ranks);
    category_for(
        count_at(h, 0),
        count_at(h, 1),
        is_straight(ranks),
        all_same_suit(cards),
        lowest(ranks),
    )
}

} // verus!
