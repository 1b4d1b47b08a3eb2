//! What a hand's ranks say: how often each occurs, and whether they run.

use vstd::prelude::*;
use vstd::relations::sorted_by;
use vstd::relations::total_ordering;
use vstd::seq_lib::group_to_multiset_ensures;
use vstd::seq_lib::lemma_sorted_unique;
use crate::card::Card;
use crate::card::MAX_RANK;

verus! {

/// The ranks of `cards`, card by card.
pub open spec fn ranks_of(cards: Seq<Card>) -> Seq<u8> {
    Seq::new(cards.len(), |i: int| cards[i].rank())
}

/// How many times `rank` occurs in `ranks`.
pub open spec fn count_of(ranks: Seq<u8>, rank: u8) -> nat {
    ranks.to_multiset().count(rank)
}

/// The natural order of ranks.
pub open spec fn rank_leq() -> spec_fn(u8, u8) -> bool {
    |a: u8, b: u8| a <= b
}

/// `ranks` put in ascending order.
pub open spec fn ascending(ranks: Seq<u8>) -> Seq<u8> {
    ranks.sort_by(rank_leq())
}

/// The ranks of the straight in which the ace plays low, in ascending
/// order.
pub open spec fn wheel() -> Seq<u8> {
    seq![2u8, 3u8, 4u8, 5u8, 14u8]
}

/// Whether each rank of `sorted` is one more than the rank before it.
pub open spec fn is_run(sorted: Seq<u8>) -> bool {
    forall|i: int| 0 <= i < sorted.len() ==> (#[trigger] sorted[i]) == sorted[0] + i
}

/// Whether `ranks`, once put in ascending order, are consecutive, or are
/// those of the wheel.
pub open spec fn is_straight(ranks: Seq<u8>) -> bool {
    ascending(ranks) == wheel() || is_run(ascending(ranks))
}

/// The lowest of `ranks`, which must not be empty.
pub open spec fn lowest(ranks: Seq<u8>) -> u8
    recommends
        ranks.len() > 0,
{
    ascending(ranks)[0]
}

/// The ranks of `cards` in ascending order.
pub fn sorted_ranks(cards: &Vec<Card>) -> (sorted: Vec<u8>)
    ensures
        sorted@ == ascending(ranks_of(cards@)),
        forall|i: int| 0 <= i < sorted.len() ==> sorted[i] <= MAX_RANK,
{
    let ghost ranks = ranks_of(cards@);
    let mut sorted: Vec<u8> = Vec::new();
    let mut i: usize = 0;
    proof {
        assert(ranks.take(0) =~= Seq::<u8>::empty());
    }
    while i < cards.len()
        invariant
            i <= cards.len(),
            ranks == ranks_of(cards@),
            sorted_by(sorted@, rank_leq()),
            sorted@.to_multiset() == ranks.take(i as int).to_multiset(),
            forall|k: int| 0 <= k < sorted.len() ==> sorted[k] <= MAX_RANK,
        decreases cards.len() - i,
    {
        let rank = cards[i].rank();
        let mut at: usize = 0;
        while at < sorted.len() && sorted[at] <= rank
            invariant
                at <= sorted.len(),
                forall|k: int| 0 <= k < at ==> sorted[k] <= rank,
            decreases sorted.len() - at,
        {
            at += 1;
        }
        proof {
            broadcast use group_to_multiset_ensures;

            let before = sorted@;
            let after = before.insert(at as int, rank);
            assert forall|a: int, b: int| 0 <= a < b < after.len() implies rank_leq()(
                after[a],
                after[b],
            ) by {
                if b < at {
                } else if b == at {
                } else if a < at {
                    assert(rank_leq()(before[a], before[b - 1]));
                } else if a == at {
                    assert(rank_leq()(before[at as int], before[b - 1]));
                } else {
                    assert(rank_leq()(before[a - 1], before[b - 1]));
                }
            }
            assert(ranks.take(i as int).push(rank) =~= ranks.take(i + 1));
        }
        sorted.insert(at, rank);
        i += 1;
    }
    proof {
        assert(ranks.take(i as int) =~= ranks);
        lemma_ascending_is_unique(ranks, sorted@);
    }
    sorted
}

/// A sequence in ascending order that holds each rank as often as `ranks`
/// does is `ranks` put in ascending order.
pub proof fn lemma_ascending_is_unique(ranks: Seq<u8>, sorted: Seq<u8>)
    requires
        sorted_by(sorted, rank_leq()),
        sorted.to_multiset() == ranks.to_multiset(),
    ensures
        sorted == ascending(ranks),
{
    lemma_rank_leq_is_total();
    ranks.lemma_sort_by_ensures(rank_leq());
    lemma_sorted_unique(sorted, ascending(ranks), rank_leq());
}

proof fn lemma_rank_leq_is_total()
    ensures
        total_ordering(rank_leq()),
{
}

} // verus!
