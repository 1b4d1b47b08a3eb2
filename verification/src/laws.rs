//! What holds of the hand evaluator as a whole.

use vstd::prelude::*;
use vstd::multiset::group_multiset_axioms;
use vstd::seq_lib::group_to_multiset_ensures;
use vstd::seq_lib::lemma_multiset_commutative;
use vstd::seq_lib::to_multiset_contains;
use vstd::seq_lib::to_multiset_len;
use crate::arrange::descending;
use crate::arrange::has_rank;
use crate::arrange::lacks_rank;
use crate::arrange::lemma_all_of_rank;
use crate::arrange::lemma_descending_is_descending;
use crate::arrange::lemma_descending_is_permutation;
use crate::arrange::lemma_descending_keeps_descending;
use crate::arrange::lemma_descending_members;
use crate::arrange::lemma_descending_puts_highest_first;
use crate::arrange::lemma_none_of_rank;
use crate::arrange::lemma_of_rank_without_other;
use crate::arrange::lemma_split_is_permutation;
use crate::arrange::lemma_split_members;
use crate::arrange::of_rank;
use crate::arrange::without_rank;
use crate::card::Card;
use crate::category::PokerHandType;
use crate::category::all_same_suit;
use crate::category::hand_category;
use crate::error::HandError;
use crate::hand::PokerHand;
use crate::hand::canonical_order;
use crate::hand::wheel_last;
use crate::histogram::entry_before;
use crate::histogram::lemma_rank_histogram_exists;
use crate::histogram::lemma_rank_histogram_ignores_order;
use crate::histogram::rank_histogram;
use crate::ranks::ascending;
use crate::ranks::lemma_ascending_is_unique;
use crate::ranks::rank_leq;
use crate::ranks::ranks_of;

verus! {

/// Evaluating a hand twice in a row finds the same both times: the second
/// evaluation reports what the first reported and leaves the hand as the
/// first left it, category included.
pub proof fn lemma_evaluating_again_changes_nothing(
    hand: PokerHand,
    first_report: Result<(), HandError>,
    once: PokerHand,
    second_report: Result<(), HandError>,
    twice: PokerHand,
)
    requires
        hand.evaluates_to(first_report, &once),
        once.evaluates_to(second_report, &twice),
    ensures
        second_report == first_report,
        twice.poker_hand_type == once.poker_hand_type,
        twice == once,
{
}

/// Ordering a hand twice in a row leaves it as ordering it once does: the
/// second ordering reports what the first reported and moves no card.
pub proof fn lemma_ordering_again_changes_nothing(
    hand: PokerHand,
    first_report: Result<(), HandError>,
    once: PokerHand,
    second_report: Result<(), HandError>,
    twice: PokerHand,
)
    requires
        hand.orders_to(first_report, &once),
        once.orders_to(second_report, &twice),
    ensures
        second_report == first_report,
        twice.poker_hand_type == once.poker_hand_type,
        twice.cards@ == once.cards@,
{
    if hand.cards.len() == 5 {
        lemma_canonical_order_is_permutation(hand.cards@);
        lemma_canonical_order_is_settled(hand.cards@);
        lemma_category_survives_ordering(hand.cards@);
    }
}

/// Cards that are the same but for their order have ranks that are the same
/// but for their order.
pub proof fn lemma_ranks_ignore_order(a: Seq<Card>, b: Seq<Card>)
    requires
        a.to_multiset() == b.to_multiset(),
    ensures
        ranks_of(a).to_multiset() == ranks_of(b).to_multiset(),
    decreases a.len(),
{
    broadcast use group_to_multiset_ensures;
    broadcast use group_multiset_axioms;

    to_multiset_len(a);
    to_multiset_len(b);
    if a.len() == 0 {
        assert(ranks_of(a) =~= ranks_of(b));
    } else {
        let last = a.last();
        assert(a.contains(last));
        to_multiset_contains(a, last);
        to_multiset_contains(b, last);
        let at = choose|i: int| 0 <= i < b.len() && b[i] == last;
        let a_rest = a.drop_last();
        let b_rest = b.remove(at);
        assert(a_rest =~= a.remove(a.len() - 1));
        assert(a_rest.to_multiset() =~= b_rest.to_multiset());
        lemma_ranks_ignore_order(a_rest, b_rest);
        assert(ranks_of(a) =~= ranks_of(a_rest).push(last.rank()));
        assert(ranks_of(b) =~= ranks_of(b_rest).insert(at, last.rank()));
        assert(ranks_of(a_rest).push(last.rank()).to_multiset() =~= ranks_of(
            a_rest,
        ).to_multiset().insert(last.rank()));
        assert(ranks_of(b_rest).insert(at, last.rank()).to_multiset() =~= ranks_of(
            b_rest,
        ).to_multiset().insert(last.rank()));
    }
}

/// The category of a hand does not depend on the order of its cards.
pub proof fn lemma_category_ignores_order(a: Seq<Card>, b: Seq<Card>)
    requires
        a.to_multiset() == b.to_multiset(),
        a.len() <= usize::MAX,
    ensures
        hand_category(a) == hand_category(b),
{
    lemma_ranks_ignore_order(a, b);
    lemma_rank_histogram_ignores_order(ranks_of(a), ranks_of(b));
    ranks_of(b).lemma_sort_by_ensures(rank_leq());
    lemma_ascending_is_unique(ranks_of(a), ascending(ranks_of(b)));
    if all_same_suit(a) {
        lemma_one_suit_ignores_order(a, b);
    }
    if all_same_suit(b) {
        lemma_one_suit_ignores_order(b, a);
    }
}

/// The canonical order moves the cards of a hand and neither drops nor adds
/// one.
pub proof fn lemma_canonical_order_is_permutation(cards: Seq<Card>)
    requires
        cards.len() == 5,
    ensures
        canonical_order(cards).to_multiset() == cards.to_multiset(),
        canonical_order(cards).len() == cards.len(),
{
    broadcast use group_to_multiset_ensures;
    broadcast use group_multiset_axioms;

    let h = rank_histogram(ranks_of(cards));
    lemma_rank_histogram_exists(ranks_of(cards));
    let first = h[0].0 as int;
    let second = h[1].0 as int;
    match hand_category(cards) {
        PokerHandType::Pair | PokerHandType::ThreeOfAKind | PokerHandType::FourOfAKind => {
            let rest = without_rank(cards, first);
            lemma_split_is_permutation(cards, first);
            lemma_descending_is_permutation(rest);
            lemma_multiset_commutative(of_rank(cards, first), descending(rest));
        },
        PokerHandType::FullHouse | PokerHandType::TwoPair => {
            assert(h.len() > 1);
            assert(entry_before(h[0], h[1]));
            assert(first != second);
            let rest = without_rank(cards, first);
            let last = without_rank(rest, second);
            lemma_of_rank_without_other(cards, first, second);
            lemma_split_is_permutation(cards, first);
            lemma_split_is_permutation(rest, second);
            lemma_descending_is_permutation(last);
            lemma_multiset_commutative(of_rank(cards, first), of_rank(cards, second));
            lemma_multiset_commutative(
                of_rank(cards, first) + of_rank(cards, second),
                descending(last),
            );
            assert(canonical_order(cards).to_multiset() =~= cards.to_multiset());
        },
        PokerHandType::StraightFlush | PokerHandType::Straight => {
            let sorted = descending(cards);
            lemma_descending_is_permutation(cards);
            assert(sorted.drop_first() =~= sorted.remove(0));
            assert(sorted.contains(sorted[0]));
            assert(sorted.drop_first().push(sorted[0]).to_multiset() =~= sorted.to_multiset());
        },
        PokerHandType::RoyalFlush | PokerHandType::Flush | PokerHandType::HighCard => {
            lemma_descending_is_permutation(cards);
        },
    }
    assert(canonical_order(cards).to_multiset().len() == cards.to_multiset().len());
}

/// Putting a hand in canonical order does not change its category: the
/// category noted for the hand is the category of the cards as they then
/// lie.
pub proof fn lemma_category_survives_ordering(cards: Seq<Card>)
    requires
        cards.len() == 5,
    ensures
        hand_category(canonical_order(cards)) == hand_category(cards),
{
    lemma_canonical_order_is_permutation(cards);
    lemma_category_ignores_order(cards, canonical_order(cards));
}

/// Sorting what is sorted changes nothing.
pub proof fn lemma_descending_is_settled(cards: Seq<Card>)
    ensures
        descending(descending(cards)) == descending(cards),
{
    lemma_descending_is_descending(cards);
    lemma_descending_keeps_descending(descending(cards));
}

/// A hand in canonical order is in the canonical order of its own cards:
/// ordering it again changes nothing.
pub proof fn lemma_canonical_order_is_settled(cards: Seq<Card>)
    requires
        cards.len() == 5,
    ensures
        canonical_order(canonical_order(cards)) == canonical_order(cards),
{
    let once = canonical_order(cards);
    let h = rank_histogram(ranks_of(cards));
    let first = h[0].0 as int;
    let second = h[1].0 as int;
    lemma_canonical_order_is_permutation(cards);
    lemma_category_ignores_order(cards, once);
    lemma_ranks_ignore_order(cards, once);
    lemma_rank_histogram_ignores_order(ranks_of(cards), ranks_of(once));
    assert(rank_histogram(ranks_of(once)) == h);
    assert(hand_category(once) == hand_category(cards));
    match hand_category(cards) {
        PokerHandType::Pair | PokerHandType::ThreeOfAKind | PokerHandType::FourOfAKind => {
            reveal(group_first);
            lemma_one_group_is_settled(cards, first);
        },
        PokerHandType::FullHouse | PokerHandType::TwoPair => {
            reveal(groups_first);
            lemma_histogram_ranks_differ(ranks_of(cards));
            lemma_two_groups_are_settled(cards, first, second);
        },
        PokerHandType::StraightFlush | PokerHandType::Straight => {
            lemma_wheel_last_is_settled(cards);
        },
        PokerHandType::RoyalFlush | PokerHandType::Flush | PokerHandType::HighCard => {
            lemma_descending_is_settled(cards);
        },
    }
}

proof fn lemma_one_suit_ignores_order(a: Seq<Card>, b: Seq<Card>)
    requires
        a.to_multiset() == b.to_multiset(),
        all_same_suit(a),
    ensures
        all_same_suit(b),
{
    broadcast use group_to_multiset_ensures;

    assert forall|i: int| 0 <= i < b.len() implies (#[trigger] b[i]).suit() == b[0].suit() by {
        assert(b.contains(b[i]));
        assert(b.contains(b[0]));
        to_multiset_contains(b, b[i]);
        to_multiset_contains(b, b[0]);
        to_multiset_contains(a, b[i]);
        to_multiset_contains(a, b[0]);
        let k = choose|k: int| 0 <= k < a.len() && a[k] == b[i];
        let z = choose|z: int| 0 <= z < a.len() && a[z] == b[0];
        assert(a[k].suit() == a[0].suit());
        assert(a[z].suit() == a[0].suit());
    }
}

/// The first two entries of a histogram, where it has two, are for
/// different ranks.
proof fn lemma_histogram_ranks_differ(ranks: Seq<u8>)
    requires
        ranks.len() <= usize::MAX,
        crate::histogram::count_at(rank_histogram(ranks), 1) > 0,
    ensures
        rank_histogram(ranks)[0].0 != rank_histogram(ranks)[1].0,
{
    let h = rank_histogram(ranks);
    lemma_rank_histogram_exists(ranks);
    assert(h.len() > 1);
    assert(entry_before(h[0], h[1]));
}

proof fn lemma_sorted_rest_lacks_rank(others: Seq<Card>, rank: int)
    requires
        forall|i: int| 0 <= i < others.len() ==> (#[trigger] others[i]).rank() != rank,
    ensures
        forall|i: int|
            0 <= i < descending(others).len() ==> (#[trigger] descending(others)[i]).rank()
                != rank,
{
    let tail = descending(others);
    lemma_descending_members(others);
    assert forall|i: int| 0 <= i < tail.len() implies (#[trigger] tail[i]).rank() != rank by {
        assert(others.contains(tail[i]));
        let k = choose|k: int| 0 <= k < others.len() && others[k] == tail[i];
        assert(others[k].rank() != rank);
    }
}

/// The layout of a hand of one group: the cards of rank `first`, then the
/// rest from the highest down.
#[verifier::opaque]
spec fn group_first(cards: Seq<Card>, first: int) -> Seq<Card> {
    of_rank(cards, first) + descending(without_rank(cards, first))
}

/// A group of equal ranks followed by the sorted rest is laid out as a hand
/// of one group is.
proof fn lemma_one_group_is_settled(cards: Seq<Card>, first: int)
    ensures
        group_first(group_first(cards, first), first) == group_first(cards, first),
{
    reveal(group_first);
    let group = of_rank(cards, first);
    let others = without_rank(cards, first);
    let tail = descending(others);
    let once = group + tail;
    lemma_split_members(cards, first);
    lemma_sorted_rest_lacks_rank(others, first);
    lemma_descending_is_settled(others);
    lemma_all_of_rank(group, first);
    lemma_none_of_rank(tail, first);
    Seq::filter_distributes_over_add(group, tail, has_rank(first));
    Seq::filter_distributes_over_add(group, tail, lacks_rank(first));
    assert(of_rank(once, first) =~= group);
    assert(without_rank(once, first) =~= tail);
}

proof fn lemma_group_first_lacks_rank(cards: Seq<Card>, first: int, rank: int)
    requires
        forall|i: int| 0 <= i < cards.len() ==> (#[trigger] cards[i]).rank() != rank,
    ensures
        forall|i: int|
            0 <= i < group_first(cards, first).len() ==> (#[trigger] group_first(
                cards,
                first,
            )[i]).rank() != rank,
{
    reveal(group_first);
    let group = of_rank(cards, first);
    let others = without_rank(cards, first);
    let tail = descending(others);
    let whole = group_first(cards, first);
    assert forall|i: int| 0 <= i < group.len() implies (#[trigger] group[i]).rank() != rank by {
        assert(group.contains(group[i]));
        cards.lemma_filter_contains_rev(has_rank(first), group[i]);
        let k = choose|k: int| 0 <= k < cards.len() && cards[k] == group[i];
        assert(cards[k].rank() != rank);
    }
    assert forall|i: int| 0 <= i < others.len() implies (#[trigger] others[i]).rank() != rank by {
        assert(others.contains(others[i]));
        cards.lemma_filter_contains_rev(lacks_rank(first), others[i]);
        let k = choose|k: int| 0 <= k < cards.len() && cards[k] == others[i];
        assert(cards[k].rank() != rank);
    }
    lemma_sorted_rest_lacks_rank(others, rank);
    assert forall|i: int| 0 <= i < whole.len() implies (#[trigger] whole[i]).rank() != rank by {
        if i < group.len() {
            assert(whole[i] == group[i]);
        } else {
            assert(whole[i] == tail[i - group.len()]);
        }
    }
}

/// Cards of one rank followed by cards of other ranks part again into the
/// two.
proof fn lemma_split_of_joined(group: Seq<Card>, rest: Seq<Card>, rank: int)
    requires
        forall|i: int| 0 <= i < group.len() ==> (#[trigger] group[i]).rank() == rank,
        forall|i: int| 0 <= i < rest.len() ==> (#[trigger] rest[i]).rank() != rank,
    ensures
        of_rank(group + rest, rank) == group,
        without_rank(group + rest, rank) == rest,
{
    lemma_all_of_rank(group, rank);
    lemma_none_of_rank(rest, rank);
    Seq::filter_distributes_over_add(group, rest, has_rank(rank));
    Seq::filter_distributes_over_add(group, rest, lacks_rank(rank));
    assert(of_rank(group + rest, rank) =~= group);
    assert(without_rank(group + rest, rank) =~= rest);
}

/// The layout of a hand of two groups: the cards of rank `first`, those of
/// rank `second`, then the rest from the highest down.
#[verifier::opaque]
spec fn groups_first(cards: Seq<Card>, first: int, second: int) -> Seq<Card> {
    of_rank(cards, first) + of_rank(cards, second) + descending(
        without_rank(without_rank(cards, first), second),
    )
}

/// The layout of two groups is the first group followed by the layout of
/// the rest as a hand of one group.
proof fn lemma_groups_first_by_steps(cards: Seq<Card>, first: int, second: int)
    requires
        first != second,
    ensures
        groups_first(cards, first, second) == of_rank(cards, first) + group_first(
            without_rank(cards, first),
            second,
        ),
{
    reveal(group_first);
    reveal(groups_first);
    lemma_of_rank_without_other(cards, first, second);
    let a = of_rank(cards, first);
    let b = of_rank(cards, second);
    let c = descending(without_rank(without_rank(cards, first), second));
    assert((a + b) + c =~= a + (b + c));
}

/// Whether `whole` parts by rank `rank` into `group` and `rest`.
#[verifier::opaque]
spec fn parts_into(whole: Seq<Card>, rank: int, group: Seq<Card>, rest: Seq<Card>) -> bool {
    of_rank(whole, rank) == group && without_rank(whole, rank) == rest
}

/// A group followed by a sequence that is laid out as a hand of one group
/// is laid out as a hand of two groups, where the whole parts into the two.
proof fn lemma_joined_is_settled(group: Seq<Card>, rest: Seq<Card>, first: int, second: int)
    requires
        first != second,
        parts_into(group + rest, first, group, rest),
        group_first(rest, second) == rest,
    ensures
        groups_first(group + rest, first, second) == group + rest,
{
    reveal(parts_into);
    lemma_groups_first_by_steps(group + rest, first, second);
}

/// The first group, followed by the rest laid out as a hand of one group,
/// parts again into the two.
proof fn lemma_first_group_splits(cards: Seq<Card>, first: int, second: int)
    ensures
        parts_into(
            of_rank(cards, first) + group_first(without_rank(cards, first), second),
            first,
            of_rank(cards, first),
            group_first(without_rank(cards, first), second),
        ),
{
    reveal(parts_into);
    let group = of_rank(cards, first);
    let others = without_rank(cards, first);
    let rest = group_first(others, second);
    assert forall|i: int| 0 <= i < group.len() implies (#[trigger] group[i]).rank() == first by {
        lemma_split_members(cards, first);
    }
    assert forall|i: int| 0 <= i < rest.len() implies (#[trigger] rest[i]).rank() != first by {
        lemma_split_members(cards, first);
        lemma_group_first_lacks_rank(others, second, first);
    }
    lemma_split_of_joined(group, rest, first);
}

/// Two groups of equal ranks followed by the sorted rest are laid out as a
/// hand of two groups is.
proof fn lemma_two_groups_are_settled(cards: Seq<Card>, first: int, second: int)
    requires
        first != second,
    ensures
        groups_first(groups_first(cards, first, second), first, second) == groups_first(
            cards,
            first,
            second,
        ),
{
    let group = of_rank(cards, first);
    let others = without_rank(cards, first);
    let rest = group_first(others, second);
    lemma_groups_first_by_steps(cards, first, second);
    lemma_first_group_splits(cards, first, second);
    lemma_one_group_is_settled(others, second);
    lemma_joined_is_settled(group, rest, first, second);
}

/// A sorted hand with the ace moved to the end where it plays low is laid
/// out as a straight is.
proof fn lemma_wheel_last_is_settled(cards: Seq<Card>)
    requires
        cards.len() >= 2,
    ensures
        wheel_last(descending(wheel_last(descending(cards)))) == wheel_last(descending(cards)),
{
    let sorted = descending(cards);
    lemma_descending_is_permutation(cards);
    lemma_descending_is_descending(cards);
    if sorted[0].rank() == 14 && sorted[1].rank() == 5 {
        let rest = sorted.drop_first();
        let ace = sorted[0];
        assert forall|i: int, j: int| 0 <= i < j < rest.len() implies rest[i].rank()
            >= rest[j].rank() by {
            assert(rest[i] == sorted[i + 1]);
            assert(rest[j] == sorted[j + 1]);
        }
        assert forall|k: int| 0 <= k < rest.len() implies rest[k].rank() < ace.rank() by {
            assert(rest[k] == sorted[k + 1]);
            if k > 0 {
                assert(sorted[1].rank() >= sorted[k + 1].rank());
            }
        }
        lemma_descending_puts_highest_first(rest, ace);
        assert(seq![ace] + rest =~= sorted);
    } else {
        lemma_descending_is_settled(cards);
    }
}

} // verus!
