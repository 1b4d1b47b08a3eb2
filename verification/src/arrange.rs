//! Putting cards in order.
//!
//! The order of cards is by rank, highest first. Cards of one rank are
//! equal in that order, so a sort has to say what becomes of them: here
//! they keep the order in which they stood. That is stated without any
//! reference to how the sort proceeds: the sorted sequence is, for each
//! rank from the highest down, the cards of that rank as they stood.

use vstd::prelude::*;
use crate::card::Card;

verus! {

/// The test "this card has rank `rank`".
pub open spec fn has_rank(rank: int) -> spec_fn(Card) -> bool {
    |c: Card| c.rank() == rank
}

/// The test "this card has another rank than `rank`".
pub open spec fn lacks_rank(rank: int) -> spec_fn(Card) -> bool {
    |c: Card| c.rank() != rank
}

/// The cards of rank `rank`, in the order in which they stand in `cards`.
pub open spec fn of_rank(cards: Seq<Card>, rank: int) -> Seq<Card> {
    cards.filter(has_rank(rank))
}

/// The cards of any other rank than `rank`, in the order in which they
/// stand in `cards`.
pub open spec fn without_rank(cards: Seq<Card>, rank: int) -> Seq<Card> {
    cards.filter(lacks_rank(rank))
}

/// The cards of rank `top` or lower, highest rank first; cards of one rank
/// in the order in which they stand in `cards`.
pub open spec fn descending_from(cards: Seq<Card>, top: int) -> Seq<Card>
    decreases top + 1,
{
    if top < 0 {
        Seq::empty()
    } else {
        of_rank(cards, top) + descending_from(cards, top - 1)
    }
}

/// All of `cards`, highest rank first; cards of one rank in the order in
/// which they stand in `cards`. This is what a stable sort by the order of
/// cards gives.
pub open spec fn descending(cards: Seq<Card>) -> Seq<Card> {
    descending_from(cards, u8::MAX as int)
}

/// Whether no card stands before a card of higher rank.
pub open spec fn is_descending(cards: Seq<Card>) -> bool {
    forall|i: int, j: int| 0 <= i < j < cards.len() ==> cards[i].rank() >= cards[j].rank()
}

/// Parts `cards` into those of rank `rank` and the others, each part in the
/// order in which its cards stand in `cards`.
pub fn split_by_rank(cards: &Vec<Card>, rank: u8) -> (parts: (Vec<Card>, Vec<Card>))
    ensures
        parts.0@ == of_rank(cards@, rank as int),
        parts.1@ == without_rank(cards@, rank as int),
{
    let mut chosen: Vec<Card> = Vec::new();
    let mut others: Vec<Card> = Vec::new();
    let mut i: usize = 0;
    proof {
        let none = cards@.take(0);
        none.lemma_filter_len(has_rank(rank as int));
        none.lemma_filter_len(lacks_rank(rank as int));
        assert(of_rank(none, rank as int) =~= Seq::<Card>::empty());
        assert(without_rank(none, rank as int) =~= Seq::<Card>::empty());
    }
    while i < cards.len()
        invariant
            i <= cards.len(),
            chosen@ == of_rank(cards@.take(i as int), rank as int),
            others@ == without_rank(cards@.take(i as int), rank as int),
        decreases cards.len() - i,
    {
        let c = cards[i];
        proof {
            let seen = cards@.take(i as int);
            seen.lemma_filter_push(c, has_rank(rank as int));
            seen.lemma_filter_push(c, lacks_rank(rank as int));
            assert(seen.push(c) =~= cards@.take(i + 1));
        }
        if c.rank() == rank {
            chosen.push(c);
        } else {
            others.push(c);
        }
        i += 1;
    }
    proof {
        assert(cards@.take(i as int) =~= cards@);
    }
    (chosen, others)
}

/// Sorts `cards` by the order of cards, highest rank first. Cards of one
/// rank keep the order in which they stood.
pub fn sort_descending(cards: &mut Vec<Card>)
    ensures
        final(cards)@ == descending(old(cards)@),
{
    let mut sorted: Vec<Card> = Vec::new();
    let mut i: usize = 0;
    proof {
        lemma_descending_from_nothing(u8::MAX as int);
        assert(cards@.take(0) =~= Seq::<Card>::empty());
    }
    while i < cards.len()
        invariant
            i <= cards.len(),
            cards@ == old(cards)@,
            sorted@ == descending(cards@.take(i as int)),
        decreases cards.len() - i,
    {
        let c = cards[i];
        let mut at: usize = 0;
        while at < sorted.len() && !(c < sorted[at])
            invariant
                at <= sorted.len(),
                forall|k: int| 0 <= k < at ==> sorted[k].rank() >= c.rank(),
            decreases sorted.len() - at,
        {
            at += 1;
        }
        proof {
            let seen = cards@.take(i as int);
            lemma_descending_is_descending(seen);
            assert forall|k: int| at <= k < sorted.len() implies sorted[k].rank() < c.rank() by {
                assert(sorted[at as int].rank() < c.rank());
            }
            lemma_descending_from_push(seen, c, u8::MAX as int, at as int);
            assert(seen.push(c) =~= cards@.take(i + 1));
        }
        sorted.insert(at, c);
        i += 1;
    }
    proof {
        assert(cards@.take(i as int) =~= cards@);
    }
    *cards = sorted;
}

/// The sorted sequence is in descending order of rank.
pub proof fn lemma_descending_is_descending(cards: Seq<Card>)
    ensures
        is_descending(descending(cards)),
{
    lemma_descending_from_is_descending(cards, u8::MAX as int);
}

/// Sorting moves cards and neither drops nor adds one: the sorted sequence
/// holds each card as often as `cards` does, and is as long.
pub proof fn lemma_descending_is_permutation(cards: Seq<Card>)
    ensures
        descending(cards).to_multiset() == cards.to_multiset(),
        descending(cards).len() == cards.len(),
    decreases cards.len(),
{
    broadcast use vstd::seq_lib::group_to_multiset_ensures;

    if cards.len() == 0 {
        lemma_descending_from_nothing(u8::MAX as int);
        assert(cards =~= Seq::<Card>::empty());
    } else {
        let front = cards.drop_last();
        let c = cards.last();
        assert(cards =~= front.push(c));
        lemma_descending_is_permutation(front);
        let sorted = descending(front);
        lemma_descending_is_descending(front);
        lemma_place_for(sorted, c.rank() as int);
        let at = place_for(sorted, c.rank() as int);
        lemma_descending_from_push(front, c, u8::MAX as int, at);
        assert(descending(cards) == sorted.insert(at, c));
        assert(sorted.insert(at, c).to_multiset() == sorted.to_multiset().insert(c));
        assert(front.push(c).to_multiset() =~= front.to_multiset().insert(c));
    }
}

/// Every card of the sorted sequence is one of `cards`.
pub proof fn lemma_descending_members(cards: Seq<Card>)
    ensures
        forall|i: int|
            0 <= i < descending(cards).len() ==> cards.contains(#[trigger] descending(cards)[i]),
{
    broadcast use vstd::seq_lib::group_to_multiset_ensures;

    lemma_descending_is_permutation(cards);
    let sorted = descending(cards);
    assert forall|i: int| 0 <= i < sorted.len() implies cards.contains(#[trigger] sorted[i]) by {
        assert(sorted.contains(sorted[i]));
        vstd::seq_lib::to_multiset_contains(sorted, sorted[i]);
        vstd::seq_lib::to_multiset_contains(cards, sorted[i]);
    }
}

/// A sequence that is in descending order already is its own sorted
/// sequence.
pub proof fn lemma_descending_keeps_descending(cards: Seq<Card>)
    requires
        is_descending(cards),
    ensures
        descending(cards) == cards,
    decreases cards.len(),
{
    if cards.len() == 0 {
        lemma_descending_from_nothing(u8::MAX as int);
        assert(cards =~= Seq::<Card>::empty());
    } else {
        let front = cards.drop_last();
        let c = cards.last();
        assert(cards =~= front.push(c));
        assert forall|i: int, j: int| 0 <= i < j < front.len() implies front[i].rank()
            >= front[j].rank() by {
            assert(front[i] == cards[i]);
            assert(front[j] == cards[j]);
        }
        lemma_descending_keeps_descending(front);
        assert forall|k: int| 0 <= k < front.len() implies front[k].rank() >= c.rank() by {
            assert(front[k] == cards[k]);
            assert(c == cards[cards.len() - 1]);
        }
        lemma_descending_from_push(front, c, u8::MAX as int, front.len() as int);
        assert(front.insert(front.len() as int, c) =~= front.push(c));
    }
}

/// Sorting puts a card that outranks all the others first and leaves the
/// others, where they are in descending order, as they are.
pub proof fn lemma_descending_puts_highest_first(rest: Seq<Card>, high: Card)
    requires
        is_descending(rest),
        forall|k: int| 0 <= k < rest.len() ==> rest[k].rank() < high.rank(),
    ensures
        descending(rest.push(high)) == seq![high] + rest,
{
    lemma_descending_keeps_descending(rest);
    lemma_descending_from_push(rest, high, u8::MAX as int, 0);
    assert(rest.insert(0, high) =~= seq![high] + rest);
}

/// The cards of one rank and the cards of the other ranks are together the
/// cards, each as often as it occurs.
pub proof fn lemma_split_is_permutation(cards: Seq<Card>, rank: int)
    ensures
        of_rank(cards, rank).to_multiset().add(without_rank(cards, rank).to_multiset())
            == cards.to_multiset(),
        of_rank(cards, rank).len() + without_rank(cards, rank).len() == cards.len(),
    decreases cards.len(),
{
    broadcast use vstd::seq_lib::group_to_multiset_ensures;
    broadcast use vstd::multiset::group_multiset_axioms;

    if cards.len() == 0 {
        cards.lemma_filter_len(has_rank(rank));
        cards.lemma_filter_len(lacks_rank(rank));
        assert(of_rank(cards, rank) =~= Seq::<Card>::empty());
        assert(without_rank(cards, rank) =~= Seq::<Card>::empty());
        assert(cards =~= Seq::<Card>::empty());
        assert(Seq::<Card>::empty().to_multiset() =~= vstd::multiset::Multiset::<Card>::empty());
        assert(of_rank(cards, rank).to_multiset().add(without_rank(cards, rank).to_multiset())
            =~= cards.to_multiset());
    } else {
        let front = cards.drop_last();
        let c = cards.last();
        assert(cards =~= front.push(c));
        lemma_split_is_permutation(front, rank);
        front.lemma_filter_push(c, has_rank(rank));
        front.lemma_filter_push(c, lacks_rank(rank));
        assert(front.push(c).to_multiset() =~= front.to_multiset().insert(c));
        if c.rank() == rank {
            assert(of_rank(front, rank).push(c).to_multiset() =~= of_rank(
                front,
                rank,
            ).to_multiset().insert(c));
        } else {
            assert(without_rank(front, rank).push(c).to_multiset() =~= without_rank(
                front,
                rank,
            ).to_multiset().insert(c));
        }
        assert(of_rank(cards, rank).to_multiset().add(without_rank(cards, rank).to_multiset())
            =~= cards.to_multiset());
    }
}

/// The cards of a rank are of that rank, and the cards of other ranks are
/// not.
pub proof fn lemma_split_members(cards: Seq<Card>, rank: int)
    ensures
        forall|i: int|
            0 <= i < of_rank(cards, rank).len() ==> (#[trigger] of_rank(cards, rank)[i]).rank()
                == rank,
        forall|i: int|
            0 <= i < without_rank(cards, rank).len() ==> (#[trigger] without_rank(
                cards,
                rank,
            )[i]).rank() != rank,
{
    lemma_of_rank_members(cards, rank);
    let others = without_rank(cards, rank);
    assert forall|i: int| 0 <= i < others.len() implies (#[trigger] others[i]).rank() != rank by {
        cards.lemma_filter_pred(lacks_rank(rank), i);
    }
}

/// Where every card of `cards` is of rank `rank`, the cards of that rank
/// are all of them and the cards of other ranks are none.
pub proof fn lemma_all_of_rank(cards: Seq<Card>, rank: int)
    requires
        forall|i: int| 0 <= i < cards.len() ==> (#[trigger] cards[i]).rank() == rank,
    ensures
        of_rank(cards, rank) == cards,
        without_rank(cards, rank) == Seq::<Card>::empty(),
    decreases cards.len(),
{
    if cards.len() == 0 {
        cards.lemma_filter_len(has_rank(rank));
        cards.lemma_filter_len(lacks_rank(rank));
        assert(of_rank(cards, rank) =~= cards);
        assert(without_rank(cards, rank) =~= Seq::<Card>::empty());
    } else {
        let front = cards.drop_last();
        let c = cards.last();
        assert(cards =~= front.push(c));
        assert forall|i: int| 0 <= i < front.len() implies (#[trigger] front[i]).rank()
            == rank by {
            assert(front[i] == cards[i]);
        }
        assert(c == cards[cards.len() - 1]);
        lemma_all_of_rank(front, rank);
        front.lemma_filter_push(c, has_rank(rank));
        front.lemma_filter_push(c, lacks_rank(rank));
    }
}

/// Where no card of `cards` is of rank `rank`, the cards of that rank are
/// none and the cards of other ranks are all of them.
pub proof fn lemma_none_of_rank(cards: Seq<Card>, rank: int)
    requires
        forall|i: int| 0 <= i < cards.len() ==> (#[trigger] cards[i]).rank() != rank,
    ensures
        of_rank(cards, rank) == Seq::<Card>::empty(),
        without_rank(cards, rank) == cards,
    decreases cards.len(),
{
    if cards.len() == 0 {
        cards.lemma_filter_len(has_rank(rank));
        cards.lemma_filter_len(lacks_rank(rank));
        assert(of_rank(cards, rank) =~= Seq::<Card>::empty());
        assert(without_rank(cards, rank) =~= cards);
    } else {
        let front = cards.drop_last();
        let c = cards.last();
        assert(cards =~= front.push(c));
        assert forall|i: int| 0 <= i < front.len() implies (#[trigger] front[i]).rank()
            != rank by {
            assert(front[i] == cards[i]);
        }
        assert(c == cards[cards.len() - 1]);
        lemma_none_of_rank(front, rank);
        front.lemma_filter_push(c, has_rank(rank));
        front.lemma_filter_push(c, lacks_rank(rank));
    }
}

/// Among the cards of other ranks than `gone`, those of a rank `kept` that
/// is not `gone` are all the cards of rank `kept`.
pub proof fn lemma_of_rank_without_other(cards: Seq<Card>, gone: int, kept: int)
    requires
        gone != kept,
    ensures
        of_rank(without_rank(cards, gone), kept) == of_rank(cards, kept),
    decreases cards.len(),
{
    if cards.len() == 0 {
        assert(without_rank(cards, gone) =~= cards) by {
            cards.lemma_filter_len(lacks_rank(gone));
        }
    } else {
        let front = cards.drop_last();
        let c = cards.last();
        assert(cards =~= front.push(c));
        lemma_of_rank_without_other(front, gone, kept);
        front.lemma_filter_push(c, lacks_rank(gone));
        front.lemma_filter_push(c, has_rank(kept));
        without_rank(front, gone).lemma_filter_push(c, has_rank(kept));
    }
}

proof fn lemma_of_rank_members(cards: Seq<Card>, rank: int)
    ensures
        forall|i: int|
            0 <= i < of_rank(cards, rank).len() ==> (#[trigger] of_rank(cards, rank)[i]).rank()
                == rank,
{
    let group = of_rank(cards, rank);
    assert forall|i: int| 0 <= i < group.len() implies (#[trigger] group[i]).rank() == rank by {
        cards.lemma_filter_pred(has_rank(rank), i);
    }
}

proof fn lemma_of_rank_push(cards: Seq<Card>, c: Card, rank: int)
    ensures
        of_rank(cards.push(c), rank) == if c.rank() == rank {
            of_rank(cards, rank).push(c)
        } else {
            of_rank(cards, rank)
        },
{
    cards.lemma_filter_push(c, has_rank(rank));
}

proof fn lemma_descending_from_members(cards: Seq<Card>, top: int)
    ensures
        forall|i: int|
            0 <= i < descending_from(cards, top).len() ==> (#[trigger] descending_from(
                cards,
                top,
            )[i]).rank() <= top,
    decreases top + 1,
{
    if top >= 0 {
        lemma_of_rank_members(cards, top);
        lemma_descending_from_members(cards, top - 1);
        let group = of_rank(cards, top);
        let tail = descending_from(cards, top - 1);
        let whole = descending_from(cards, top);
        assert forall|i: int| 0 <= i < whole.len() implies (#[trigger] whole[i]).rank() <= top by {
            if i < group.len() {
                assert(whole[i] == group[i]);
            } else {
                assert(whole[i] == tail[i - group.len()]);
            }
        }
    }
}

proof fn lemma_descending_from_nothing(top: int)
    ensures
        descending_from(Seq::<Card>::empty(), top) == Seq::<Card>::empty(),
    decreases top + 1,
{
    if top >= 0 {
        lemma_descending_from_nothing(top - 1);
        assert(of_rank(Seq::<Card>::empty(), top) =~= Seq::<Card>::empty()) by {
            Seq::<Card>::empty().lemma_filter_len(has_rank(top));
        }
        assert(descending_from(Seq::<Card>::empty(), top) =~= Seq::<Card>::empty());
    }
}

proof fn lemma_descending_from_is_descending(cards: Seq<Card>, top: int)
    ensures
        is_descending(descending_from(cards, top)),
    decreases top + 1,
{
    if top >= 0 {
        lemma_of_rank_members(cards, top);
        lemma_descending_from_members(cards, top - 1);
        lemma_descending_from_is_descending(cards, top - 1);
        let group = of_rank(cards, top);
        let tail = descending_from(cards, top - 1);
        let whole = descending_from(cards, top);
        assert forall|i: int, j: int| 0 <= i < j < whole.len() implies whole[i].rank()
            >= whole[j].rank() by {
            if j < group.len() {
                assert(whole[i] == group[i]);
                assert(whole[j] == group[j]);
            } else if i < group.len() {
                assert(whole[i] == group[i]);
                assert(whole[j] == tail[j - group.len()]);
            } else {
                assert(whole[i] == tail[i - group.len()]);
                assert(whole[j] == tail[j - group.len()]);
            }
        }
    }
}

proof fn lemma_descending_from_ignores_higher(cards: Seq<Card>, c: Card, top: int)
    requires
        c.rank() > top,
    ensures
        descending_from(cards.push(c), top) == descending_from(cards, top),
    decreases top + 1,
{
    if top >= 0 {
        lemma_of_rank_push(cards, c, top);
        lemma_descending_from_ignores_higher(cards, c, top - 1);
    }
}

/// Adding a card at the end of `cards` puts it, in the sorted sequence,
/// right behind the cards that are not of lower rank.
proof fn lemma_descending_from_push(cards: Seq<Card>, c: Card, top: int, at: int)
    requires
        c.rank() <= top,
        0 <= at <= descending_from(cards, top).len(),
        forall|k: int| 0 <= k < at ==> descending_from(cards, top)[k].rank() >= c.rank(),
        forall|k: int|
            at <= k < descending_from(cards, top).len() ==> descending_from(cards, top)[k].rank()
                < c.rank(),
    ensures
        descending_from(cards.push(c), top) == descending_from(cards, top).insert(at, c),
    decreases top + 1,
{
    let group = of_rank(cards, top);
    let tail = descending_from(cards, top - 1);
    let whole = descending_from(cards, top);
    lemma_of_rank_members(cards, top);
    lemma_descending_from_members(cards, top - 1);
    lemma_of_rank_push(cards, c, top);
    assert(whole == group + tail);
    assert forall|k: int| 0 <= k < group.len() implies whole[k].rank() == top by {
        assert(whole[k] == group[k]);
    }
    assert forall|k: int| group.len() <= k < whole.len() implies whole[k].rank() < top by {
        assert(whole[k] == tail[k - group.len()]);
    }
    if c.rank() == top {
        lemma_descending_from_ignores_higher(cards, c, top - 1);
        if at < group.len() {
            assert(whole[at].rank() == top);
        }
        if at > group.len() {
            assert(whole[at - 1].rank() < top);
        }
        assert(at == group.len());
        assert(group.push(c) + tail =~= whole.insert(at, c));
    } else {
        if at < group.len() {
            assert(whole[at].rank() == top);
        }
        let inner = at - group.len();
        assert forall|k: int| 0 <= k < inner implies tail[k].rank() >= c.rank() by {
            assert(whole[k + group.len()] == tail[k]);
        }
        assert forall|k: int| inner <= k < tail.len() implies tail[k].rank() < c.rank() by {
            assert(whole[k + group.len()] == tail[k]);
        }
        lemma_descending_from_push(cards, c, top - 1, inner);
        assert(group + tail.insert(inner, c) =~= whole.insert(at, c));
    }
}

/// The number of cards at the front of `sorted` whose rank is `rank` or
/// higher.
spec fn place_for(sorted: Seq<Card>, rank: int) -> int
    decreases sorted.len(),
{
    if sorted.len() == 0 || sorted[0].rank() < rank {
        0
    } else {
        1 + place_for(sorted.drop_first(), rank)
    }
}

proof fn lemma_place_for(sorted: Seq<Card>, rank: int)
    requires
        is_descending(sorted),
    ensures
        0 <= place_for(sorted, rank) <= sorted.len(),
        forall|k: int| 0 <= k < place_for(sorted, rank) ==> sorted[k].rank() >= rank,
        forall|k: int| place_for(sorted, rank) <= k < sorted.len() ==> sorted[k].rank() < rank,
    decreases sorted.len(),
{
    if sorted.len() > 0 && sorted[0].rank() >= rank {
        let rest = sorted.drop_first();
        assert forall|i: int, j: int| 0 <= i < j < rest.len() implies rest[i].rank()
            >= rest[j].rank() by {
            assert(rest[i] == sorted[i + 1]);
            assert(rest[j] == sorted[j + 1]);
        }
        lemma_place_for(rest, rank);
        let at = place_for(sorted, rank);
        assert forall|k: int| 0 <= k < at implies sorted[k].rank() >= rank by {
            if k > 0 {
                assert(sorted[k] == rest[k - 1]);
            }
        }
        assert forall|k: int| at <= k < sorted.len() implies sorted[k].rank() < rank by {
            assert(sorted[k] == rest[k - 1]);
        }
    }
}

} // verus!
