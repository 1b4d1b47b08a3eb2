//! The card model: a rank between 2 and 14 (ace high) and one of four suits.
//!
//! Cards compare by rank alone, and in reverse: the higher rank is the
//! lesser card, so that an ascending sort deals the strongest card first.

use core::cmp::Ordering;
use vstd::prelude::*;
use vstd::std_specs::cmp::PartialEqSpec;
use vstd::std_specs::cmp::PartialOrdSpec;
use vstd::string::StringExecFns;
use crate::error::HandError;

verus! {

/// Lowest rank a card can have.
pub const MIN_RANK: u8 = 2;

/// Highest rank a card can have: the ace.
pub const MAX_RANK: u8 = 14;

/// The four suits. Suits are never ranked against each other.
#[derive(Clone, Copy, Debug, PartialEq, Eq, Structural)]
pub enum Suite {
    Heart,
    Club,
    Spade,
    Diamond,
}

/// A playing card. Its rank always lies in `MIN_RANK..=MAX_RANK`.
#[derive(Clone, Copy, Debug)]
pub struct Card {
    rank: u8,
    suite: Suite,
}

/// Whether `rank` is the rank of some card.
pub open spec fn is_rank(rank: u8) -> bool {
    MIN_RANK <= rank <= MAX_RANK
}

/// How a rank is written: the number itself up to ten, then J, Q, K, A.
/// Only defined for the ranks of cards.
pub open spec fn rank_label_of(rank: u8) -> Seq<char>
    recommends
        is_rank(rank),
{
    if rank == 2 {
        "2"@
    } else if rank == 3 {
        "3"@
    } else if rank == 4 {
        "4"@
    } else if rank == 5 {
        "5"@
    } else if rank == 6 {
        "6"@
    } else if rank == 7 {
        "7"@
    } else if rank == 8 {
        "8"@
    } else if rank == 9 {
        "9"@
    } else if rank == 10 {
        "10"@
    } else if rank == 11 {
        "J"@
    } else if rank == 12 {
        "Q"@
    } else if rank == 13 {
        "K"@
    } else {
        "A"@
    }
}

impl Card {
    #[verifier::type_invariant]
    spec fn rank_in_range(self) -> bool {
        is_rank(self.rank)
    }

    /// The rank of this card, as a specification value.
    pub closed spec fn spec_rank(&self) -> u8 {
        self.rank
    }

    /// The suit of this card, as a specification value.
    pub closed spec fn spec_suit(&self) -> Suite {
        self.suite
    }

    /// A card is determined by its rank and its suit.
    pub proof fn lemma_same_rank_and_suit(self, other: Card)
        requires
            self.rank() == other.rank(),
            self.suit() == other.suit(),
        ensures
            self == other,
    {
    }

    /// Makes the card of the given rank and suit, or reports
    /// `InvalidRank` when the rank is not between 2 and 14.
    pub fn new(name: u8, suite: Suite) -> (r: Result<Card, HandError>)
        ensures
            is_rank(name) ==> r is Ok && r->Ok_0.rank() == name && r->Ok_0.suit() == suite,
            !is_rank(name) ==> r is Err && r->Err_0 == HandError::InvalidRank,
    {
        if MIN_RANK <= name && name <= MAX_RANK {
            Ok(Card { rank: name, suite })
        } else {
            Err(HandError::InvalidRank)
        }
    }

    /// The rank, always between 2 and 14.
    #[verifier::when_used_as_spec(spec_rank)]
    pub fn rank(&self) -> (r: u8)
        ensures
            r == self.rank(),
            is_rank(r),
    {
        proof {
            use_type_invariant(self);
        }
        self.rank
    }

    /// The suit.
    #[verifier::when_used_as_spec(spec_suit)]
    pub fn suit(&self) -> (s: Suite)
        ensures
            s == self.suit(),
    {
        self.suite
    }

    /// The rank as it is written on the card.
    pub fn rank_label(&self) -> (s: String)
        ensures
            s@ == rank_label_of(self.rank()),
    {
        proof {
            use_type_invariant(self);
        }
        let text = match self.rank {
            2 => "2",
            3 => "3",
            4 => "4",
            5 => "5",
            6 => "6",
            7 => "7",
            8 => "8",
            9 => "9",
            10 => "10",
            11 => "J",
            12 => "Q",
            13 => "K",
            _ => "A",
        };
        String::from_str(text)
    }
}

impl PartialEq for Card {
    /// Two cards are equal when their ranks are; the suit is not looked at.
    fn eq(&self, other: &Self) -> (r: bool) {
        self.rank == other.rank
    }
}

impl vstd::std_specs::cmp::PartialEqSpecImpl for Card {
    open spec fn obeys_eq_spec() -> bool {
        true
    }

    open spec fn eq_spec(&self, other: &Self) -> bool {
        self.rank() == other.rank()
    }
}

impl Eq for Card {

}

impl PartialOrd for Card {
    /// Compares by rank, reversed: the card of higher rank is the lesser.
    fn partial_cmp(&self, other: &Self) -> (r: Option<Ordering>) {
        if self.rank > other.rank {
            Some(Ordering::Less)
        } else if self.rank < other.rank {
            Some(Ordering::Greater)
        } else {
            Some(Ordering::Equal)
        }
    }
}

impl vstd::std_specs::cmp::PartialOrdSpecImpl for Card {
    open spec fn obeys_partial_cmp_spec() -> bool {
        true
    }

    open spec fn partial_cmp_spec(&self, other: &Self) -> Option<Ordering> {
        if self.rank() > other.rank() {
            Some(Ordering::Less)
        } else if self.rank() < other.rank() {
            Some(Ordering::Greater)
        } else {
            Some(Ordering::Equal)
        }
    }
}

/// Whether `a` is strictly less than `b` in the order of cards, which is
/// what `a < b` computes.
pub open spec fn card_lt(a: Card, b: Card) -> bool {
    a.partial_cmp_spec(&b) == Some(Ordering::Less)
}

/// The order of cards is the order of ranks turned round: a card is less
/// than another exactly when its rank is higher, and two cards are equal
/// exactly when neither is less than the other.
pub proof fn lemma_card_order_is_descending_rank(a: Card, b: Card)
    ensures
        card_lt(a, b) <==> a.rank() > b.rank(),
        a.eq_spec(&b) <==> a.rank() == b.rank(),
        a.eq_spec(&b) <==> !card_lt(a, b) && !card_lt(b, a),
{
}

/// The order of cards is a strict total order on ranks: no card is less
/// than itself, of two cards of different rank exactly one is less than
/// the other, and less-than carries over a card in between.
pub proof fn lemma_card_order_is_strict_total(a: Card, b: Card, c: Card)
    ensures
        !card_lt(a, a),
        card_lt(a, b) ==> !card_lt(b, a),
        card_lt(a, b) || card_lt(b, a) || a.eq_spec(&b),
        card_lt(a, b) && card_lt(b, c) ==> card_lt(a, c),
{
}

} // verus!
