//! A poker hand: up to five cards, the category they make once there are
//! five, and the order in which a hand of that category is laid out.

use vstd::prelude::*;
use crate::arrange::descending;
use crate::arrange::lemma_descending_is_permutation;
use crate::arrange::lemma_of_rank_without_other;
use crate::arrange::of_rank;
use crate::arrange::sort_descending;
use crate::arrange::split_by_rank;
use crate::arrange::without_rank;
use crate::card::Card;
use crate::category::all_same_suit;
use crate::category::category_for;
use crate::category::hand_category;
use crate::category::PokerHandType;
use crate::error::HandError;
use crate::histogram::count_at;
use crate::histogram::rank_histogram;
use crate::histogram::tally_ranks;
use crate::ranks::ascending;
use crate::ranks::is_run;
use crate::ranks::is_straight;
use crate::ranks::ranks_of;
use crate::ranks::sorted_ranks;
use crate::ranks::wheel;

verus! {

/// The number of cards in a full hand.
pub const HAND_SIZE: usize = 5;

/// A hand in the making or complete. `poker_hand_type` is what the last
/// evaluation found. Both fields are open to the caller, so a hand can be
/// put together that is not `well_formed`; no operation relies on the
/// category that is noted, each that needs one evaluates again.
#[derive(Debug)]
pub struct PokerHand {
    pub cards: Vec<Card>,
    pub poker_hand_type: Option<PokerHandType>,
}

/// A sorted straight with the ace moved behind the other cards where it
/// plays low, that is where it is followed by a five; any other sequence as
/// it is.
pub open spec fn wheel_last(sorted: Seq<Card>) -> Seq<Card> {
    if sorted.len() >= 2 && sorted[0].rank() == 14 && sorted[1].rank() == 5 {
        sorted.drop_first().push(sorted[0])
    } else {
        sorted
    }
}

/// The order in which five cards of category `category` are laid out, where
/// `first` and `second` are the ranks of the first two histogram entries:
/// for hands made of one group of equal ranks, the group and then the rest
/// from the highest down; for hands made of two groups, the larger or
/// higher group, the other group, and the rest; for all others the cards
/// from the highest down, the ace last where it plays low in a straight.
pub open spec fn laid_out(
    cards: Seq<Card>,
    category: PokerHandType,
    first: u8,
    second: u8,
) -> Seq<Card> {
    match category {
        PokerHandType::Pair | PokerHandType::ThreeOfAKind | PokerHandType::FourOfAKind => {
            of_rank(cards, first as int) + descending(without_rank(cards, first as int))
        },
        PokerHandType::FullHouse | PokerHandType::TwoPair => {
            of_rank(cards, first as int) + of_rank(cards, second as int) + descending(
                without_rank(without_rank(cards, first as int), second as int),
            )
        },
        PokerHandType::StraightFlush | PokerHandType::Straight => wheel_last(descending(cards)),
        PokerHandType::RoyalFlush | PokerHandType::Flush | PokerHandType::HighCard => descending(
            cards,
        ),
    }
}

/// The canonical order of the five cards `cards`.
pub open spec fn canonical_order(cards: Seq<Card>) -> Seq<Card>
    recommends
        cards.len() == 5,
{
    let h = rank_histogram(ranks_of(cards));
    laid_out(cards, hand_category(cards), h[0].0, h[1].0)
}

impl PokerHand {
    /// Whether the hand holds no more cards than a hand can and, where a
    /// category is noted, is full and of that category. The hand that
    /// `new` makes is so, every operation keeps a hand so, and a successful
    /// evaluation makes it so.
    pub open spec fn well_formed(&self) -> bool {
        &&& self.cards.len() <= HAND_SIZE
        &&& self.poker_hand_type is Some ==> self.cards.len() == HAND_SIZE
            && self.poker_hand_type == Some(hand_category(self.cards@))
    }

    /// Whether evaluating the hand `self` can report `r` and leave `after`:
    /// a hand of five cards comes out with its category noted and its
    /// cards as they were, any other hand is refused and left alone.
    pub open spec fn evaluates_to(&self, r: Result<(), HandError>, after: &PokerHand) -> bool {
        if self.cards.len() == HAND_SIZE {
            &&& r == Ok::<(), HandError>(())
            &&& after.cards == self.cards
            &&& after.poker_hand_type == Some(hand_category(self.cards@))
        } else {
            &&& r == Err::<(), HandError>(HandError::WrongCardCount)
            &&& *after == *self
        }
    }

    /// Whether ordering the hand `self` can report `r` and leave `after`:
    /// a hand of five cards comes out with its category noted and its
    /// cards in canonical order, any other hand is refused and left alone.
    pub open spec fn orders_to(&self, r: Result<(), HandError>, after: &PokerHand) -> bool {
        if self.cards.len() == HAND_SIZE {
            &&& r == Ok::<(), HandError>(())
            &&& after.cards@ == canonical_order(self.cards@)
            &&& after.poker_hand_type == Some(hand_category(self.cards@))
        } else {
            &&& r == Err::<(), HandError>(HandError::WrongCardCount)
            &&& *after == *self
        }
    }

    /// A hand without cards.
    pub fn new() -> (hand: PokerHand)
        ensures
            hand.cards@ == Seq::<Card>::empty(),
            hand.poker_hand_type is None,
            hand.well_formed(),
    {
        PokerHand { cards: Vec::new(), poker_hand_type: None }
    }

    /// Puts `card` behind the cards of the hand, unless the hand is full:
    /// then the hand stays as it is and `MaxHandExceeded` is reported.
    pub fn add_card(&mut self, card: Card) -> (r: Result<(), HandError>)
        ensures
            old(self).cards.len() == HAND_SIZE ==> r == Err::<(), HandError>(
                HandError::MaxHandExceeded,
            ) && *final(self) == *old(self),
            old(self).cards.len() != HAND_SIZE ==> r is Ok && final(self).cards@ == old(
                self,
            ).cards@.push(card) && final(self).poker_hand_type == old(self).poker_hand_type,
            old(self).well_formed() ==> final(self).well_formed(),
    {
        if self.cards.len() == HAND_SIZE {
            return Err(HandError::MaxHandExceeded);
        }
        self.cards.push(card);
        Ok(())
    }

    /// Whether all cards are of one suit. The hand must not be empty.
    pub fn have_flush(&self) -> (r: bool)
        requires
            self.cards.len() > 0,
        ensures
            r == all_same_suit(self.cards@),
    {
        let suite = self.cards[0].suit();
        let mut i: usize = 1;
        while i < self.cards.len()
            invariant
                1 <= i <= self.cards.len(),
                suite == self.cards[0].suit(),
                forall|k: int| 0 <= k < i ==> (#[trigger] self.cards[k]).suit() == suite,
            decreases self.cards.len() - i,
        {
            if self.cards[i].suit() != suite {
                return false;
            }
            i += 1;
        }
        true
    }

    /// The ranks that the hand holds, each with the number of times it
    /// occurs: the most frequent first, and of two that occur equally often
    /// the higher first.
    pub fn card_rank_histogram(&self) -> (h: Vec<(u8, usize)>)
        ensures
            h@ == rank_histogram(ranks_of(self.cards@)),
            crate::histogram::is_rank_histogram(h@, ranks_of(self.cards@)),
    {
        tally_ranks(&self.cards)
    }

    /// Whether the ranks, put in ascending order, are consecutive or are
    /// 2, 3, 4, 5 and the ace. The hand must not be empty.
    pub fn have_straight(&self) -> (r: bool)
        requires
            self.cards.len() > 0,
        ensures
            r == is_straight(ranks_of(self.cards@)),
    {
        let ranks = sorted_ranks(&self.cards);
        proof {
            ranks_of(self.cards@).lemma_sort_by_ensures(crate::ranks::rank_leq());
            vstd::seq_lib::to_multiset_len(ranks@);
            vstd::seq_lib::to_multiset_len(ranks_of(self.cards@));
        }
        if ranks.len() == 5 && ranks[0] == 2 && ranks[1] == 3 && ranks[2] == 4 && ranks[3] == 5
            && ranks[4] == 14 {
            proof {
                assert(ranks@ =~= wheel());
            }
            return true;
        }
        proof {
            if ranks@ == wheel() {
                assert(wheel().len() == 5);
                assert(wheel()[0] == 2 && wheel()[1] == 3 && wheel()[2] == 4 && wheel()[3] == 5
                    && wheel()[4] == 14);
            }
        }
        let mut expected: u8 = ranks[0];
        let mut i: usize = 0;
        while i < ranks.len()
            invariant
                i <= ranks.len(),
                ranks.len() > 0,
                expected == ranks[0] + i,
                forall|k: int| 0 <= k < ranks.len() ==> ranks[k] <= crate::card::MAX_RANK,
                forall|k: int| 0 <= k < i ==> (#[trigger] ranks[k]) == ranks[0] + k,
                ranks@ == ascending(ranks_of(self.cards@)),
                ranks@ != wheel(),
            decreases ranks.len() - i,
        {
            if ranks[i] != expected {
                proof {
                    assert(ranks@[i as int] != ranks@[0] + i);
                    assert(!is_run(ranks@));
                }
                return false;
            }
            expected += 1;
            i += 1;
        }
        proof {
            assert(is_run(ranks@));
        }
        true
    }

    /// Finds the category of the hand and notes it in `poker_hand_type`.
    /// A hand that does not hold five cards stays as it is, and
    /// `WrongCardCount` is reported.
    pub fn set_hand_type(&mut self) -> (r: Result<(), HandError>)
        ensures
            old(self).evaluates_to(r, final(self)),
            r is Ok || old(self).well_formed() ==> final(self).well_formed(),
    {
        if self.cards.len() != HAND_SIZE {
            return Err(HandError::WrongCardCount);
        }
        let histogram = self.card_rank_histogram();
        let top: usize = if histogram.len() > 0 {
            histogram[0].1
        } else {
            0
        };
        let second: usize = if histogram.len() > 1 {
            histogram[1].1
        } else {
            0
        };
        assert(top == count_at(histogram@, 0));
        assert(second == count_at(histogram@, 1));
        let category = if top == 4 {
            PokerHandType::FourOfAKind
        } else if top == 3 && second == 2 {
            PokerHandType::FullHouse
        } else if top == 3 && second == 1 {
            PokerHandType::ThreeOfAKind
        } else if top == 2 && second == 2 {
            PokerHandType::TwoPair
        } else if top == 2 && second == 1 {
            PokerHandType::Pair
        } else {
            match (self.have_straight(), self.have_flush()) {
                (false, false) => PokerHandType::HighCard,
                (false, true) => PokerHandType::Flush,
                (true, false) => PokerHandType::Straight,
                (true, true) => {
                    let ranks = sorted_ranks(&self.cards);
                    proof {
                        ranks_of(self.cards@).lemma_sort_by_ensures(crate::ranks::rank_leq());
                        vstd::seq_lib::to_multiset_len(ranks@);
                        vstd::seq_lib::to_multiset_len(ranks_of(self.cards@));
                    }
                    if ranks[0] == 10 {
                        PokerHandType::RoyalFlush
                    } else {
                        PokerHandType::StraightFlush
                    }
                },
            }
        };
        assert(category == category_for(
            top as int,
            second as int,
            is_straight(ranks_of(self.cards@)),
            all_same_suit(self.cards@),
            crate::ranks::lowest(ranks_of(self.cards@)),
        ));
        self.poker_hand_type = Some(category);
        Ok(())
    }

    /// Finds the category of the hand, notes it, and puts the cards in the
    /// canonical order of that category. A hand that does not hold five
    /// cards stays as it is, and `WrongCardCount` is reported.
    pub fn sort_hand(&mut self) -> (r: Result<(), HandError>)
        ensures
            old(self).orders_to(r, final(self)),
            r is Ok || old(self).well_formed() ==> final(self).well_formed(),
    {
        proof {
            if self.cards.len() == HAND_SIZE {
                crate::laws::lemma_canonical_order_is_permutation(self.cards@);
                crate::laws::lemma_category_survives_ordering(self.cards@);
            }
        }
        match self.set_hand_type() {
            Err(e) => {
                return Err(e);
            },
            Ok(_) => {},
        }
        let histogram = self.card_rank_histogram();
        match self.poker_hand_type {
            None => Err(HandError::NoCategory),
            Some(category) => {
                match category {
                    PokerHandType::Pair
                    | PokerHandType::ThreeOfAKind
                    | PokerHandType::FourOfAKind => {
                        let first = histogram[0].0;
                        let (mut group, mut others) = split_by_rank(&self.cards, first);
                        sort_descending(&mut others);
                        group.append(&mut others);
                        self.cards = group;
                    },
                    PokerHandType::FullHouse | PokerHandType::TwoPair => {
                        let first = histogram[0].0;
                        let second = histogram[1].0;
                        let (mut group, others) = split_by_rank(&self.cards, first);
                        let (mut next_group, mut remaining) = split_by_rank(&others, second);
                        proof {
                            assert(crate::histogram::entry_before(histogram@[0], histogram@[1]));
                            assert(first != second);
                            lemma_of_rank_without_other(self.cards@, first as int, second as int);
                        }
                        sort_descending(&mut remaining);
                        group.append(&mut next_group);
                        group.append(&mut remaining);
                        self.cards = group;
                    },
                    PokerHandType::StraightFlush | PokerHandType::Straight => {
                        proof {
                            lemma_descending_is_permutation(self.cards@);
                        }
                        sort_descending(&mut self.cards);
                        if self.cards[0].rank() == 14 && self.cards[1].rank() == 5 {
                            let ghost sorted = self.cards@;
                            let ace = self.cards.remove(0);
                            self.cards.push(ace);
                            proof {
                                assert(sorted.remove(0) =~= sorted.drop_first());
                            }
                        }
                    },
                    PokerHandType::RoyalFlush | PokerHandType::Flush | PokerHandType::HighCard => {
                        sort_descending(&mut self.cards);
                    },
                }
                Ok(())
            },
        }
    }
}

} // verus!
