//! The rank histogram: each rank that a hand holds with the number of times
//! it occurs, the most frequent rank first and, among ranks that occur
//! equally often, the highest first.

use vstd::prelude::*;
use vstd::multiset::group_multiset_axioms;
use vstd::seq_lib::group_to_multiset_ensures;
use crate::card::Card;
use crate::ranks::count_of;
use crate::ranks::ranks_of;

verus! {

/// Whether the entry `a` stands before the entry `b` in a histogram: it
/// counts more, or counts the same and is of higher rank. An entry is a rank
/// and the number of times it occurs.
pub open spec fn entry_before(a: (u8, usize), b: (u8, usize)) -> bool {
    a.1 > b.1 || (a.1 == b.1 && a.0 > b.0)
}

/// Whether `h` has an entry for `rank`.
pub open spec fn lists_rank(h: Seq<(u8, usize)>, rank: u8) -> bool {
    exists|i: int| 0 <= i < h.len() && (#[trigger] h[i]).0 == rank
}

/// Whether every entry of `h` holds a rank that occurs in `ranks` together
/// with its number of occurrences.
pub open spec fn counts_agree(h: Seq<(u8, usize)>, ranks: Seq<u8>) -> bool {
    forall|i: int|
        0 <= i < h.len() ==> (#[trigger] h[i]).1 > 0 && h[i].1 == count_of(ranks, h[i].0)
}

/// Whether each entry of `h` stands before all that follow it.
pub open spec fn in_histogram_order(h: Seq<(u8, usize)>) -> bool {
    forall|i: int, j: int| 0 <= i < j < h.len() ==> entry_before(#[trigger] h[i], #[trigger] h[j])
}

/// Whether `h` is the histogram of `ranks`: its entries are the ranks that
/// occur in `ranks`, each with its number of occurrences, in histogram
/// order.
pub open spec fn is_rank_histogram(h: Seq<(u8, usize)>, ranks: Seq<u8>) -> bool {
    &&& counts_agree(h, ranks)
    &&& in_histogram_order(h)
    &&& forall|rank: u8| count_of(ranks, rank) > 0 ==> #[trigger] lists_rank(h, rank)
}

/// The histogram of `ranks`. There is exactly one: see
/// `lemma_rank_histogram_is_unique` and `tally_ranks`.
pub open spec fn rank_histogram(ranks: Seq<u8>) -> Seq<(u8, usize)> {
    choose|h: Seq<(u8, usize)>| is_rank_histogram(h, ranks)
}

/// The number of occurrences of the `i`-th entry of `h`, and 0 where `h` has
/// no such entry.
pub open spec fn count_at(h: Seq<(u8, usize)>, i: int) -> int {
    if 0 <= i < h.len() {
        h[i].1 as int
    } else {
        0
    }
}

/// The histogram of the ranks of `cards`.
pub fn tally_ranks(cards: &Vec<Card>) -> (h: Vec<(u8, usize)>)
    ensures
        is_rank_histogram(h@, ranks_of(cards@)),
        h@ == rank_histogram(ranks_of(cards@)),
{
    let ghost ranks = ranks_of(cards@);
    let mut h: Vec<(u8, usize)> = Vec::new();
    let mut i: usize = 0;
    proof {
        broadcast use group_to_multiset_ensures;
        broadcast use group_multiset_axioms;

        assert(ranks.take(0) =~= Seq::<u8>::empty());
        assert(Seq::<u8>::empty().to_multiset() =~= vstd::multiset::Multiset::<u8>::empty());
    }
    while i < cards.len()
        invariant
            i <= cards.len(),
            ranks == ranks_of(cards@),
            is_rank_histogram(h@, ranks.take(i as int)),
        decreases cards.len() - i,
    {
        let rank = cards[i].rank();
        let ghost seen = ranks.take(i as int);
        proof {
            assert(seen.push(rank) =~= ranks.take(i + 1));
        }
        let mut found: usize = 0;
        while found < h.len() && h[found].0 != rank
            invariant
                found <= h.len(),
                forall|k: int| 0 <= k < found ==> (#[trigger] h[k]).0 != rank,
            decreases h.len() - found,
        {
            found += 1;
        }
        let mut count: usize = 1;
        if found < h.len() {
            proof {
                lemma_entry_taken_out(h@, seen, rank, found as int);
                lemma_count_push(seen, rank, rank);
            }
            let entry = h.remove(found);
            count = entry.1 + 1;
        } else {
            proof {
                lemma_entry_absent(h@, seen, rank);
            }
        }
        let mut at: usize = 0;
        while at < h.len() && (h[at].1 > count || (h[at].1 == count && h[at].0 > rank))
            invariant
                at <= h.len(),
                forall|k: int| 0 <= k < at ==> entry_before(#[trigger] h[k], (rank, count)),
            decreases h.len() - at,
        {
            at += 1;
        }
        proof {
            lemma_entry_put_in(h@, seen.push(rank), (rank, count), at as int);
        }
        h.insert(at, (rank, count));
        i += 1;
    }
    proof {
        assert(ranks.take(i as int) =~= ranks);
        lemma_rank_histogram_found(h@, ranks);
    }
    h
}

/// A sequence of ranks has at most one histogram.
pub proof fn lemma_rank_histogram_is_unique(a: Seq<(u8, usize)>, b: Seq<(u8, usize)>, ranks: Seq<u8>)
    requires
        is_rank_histogram(a, ranks),
        is_rank_histogram(b, ranks),
    ensures
        a == b,
{
    lemma_histograms_agree_upto(a, b, ranks, a.len() as int);
    lemma_histograms_agree_upto(b, a, ranks, b.len() as int);
    assert(a =~= b);
}

/// A histogram of `ranks` is the histogram of `ranks`.
pub proof fn lemma_rank_histogram_found(h: Seq<(u8, usize)>, ranks: Seq<u8>)
    requires
        is_rank_histogram(h, ranks),
    ensures
        h == rank_histogram(ranks),
        is_rank_histogram(rank_histogram(ranks), ranks),
{
    lemma_rank_histogram_is_unique(h, rank_histogram(ranks), ranks);
}

/// Every sequence of ranks whose length a count can hold has a histogram,
/// and `rank_histogram` is it.
pub proof fn lemma_rank_histogram_exists(ranks: Seq<u8>)
    requires
        ranks.len() <= usize::MAX,
    ensures
        is_rank_histogram(rank_histogram(ranks), ranks),
    decreases ranks.len(),
{
    broadcast use group_to_multiset_ensures;
    broadcast use group_multiset_axioms;

    if ranks.len() == 0 {
        let none = Seq::<(u8, usize)>::empty();
        assert(ranks.to_multiset() =~= vstd::multiset::Multiset::<u8>::empty());
        assert(is_rank_histogram(none, ranks));
    } else {
        let front = ranks.drop_last();
        let rank = ranks.last();
        assert(ranks =~= front.push(rank));
        lemma_rank_histogram_exists(front);
        let h = rank_histogram(front);
        lemma_count_push(ranks, rank, rank);
        if lists_rank(h, rank) {
            let found = choose|i: int| 0 <= i < h.len() && (#[trigger] h[i]).0 == rank;
            lemma_entry_taken_out(h, front, rank, found);
            let rest = h.remove(found);
            let entry = (rank, (h[found].1 + 1) as usize);
            lemma_count_push(front, rank, rank);
            lemma_entry_place(rest, entry);
            lemma_entry_put_in(rest, ranks, entry, entry_place(rest, entry));
            assert(is_rank_histogram(rest.insert(entry_place(rest, entry), entry), ranks));
        } else {
            lemma_entry_absent(h, front, rank);
            let entry = (rank, 1usize);
            lemma_entry_place(h, entry);
            lemma_entry_put_in(h, ranks, entry, entry_place(h, entry));
            assert(is_rank_histogram(h.insert(entry_place(h, entry), entry), ranks));
        }
    }
}

/// The histogram is about how often each rank occurs and about nothing
/// else: two sequences that hold each rank equally often have the same
/// histogram.
pub proof fn lemma_rank_histogram_ignores_order(a: Seq<u8>, b: Seq<u8>)
    requires
        a.to_multiset() == b.to_multiset(),
        a.len() <= usize::MAX,
    ensures
        rank_histogram(a) == rank_histogram(b),
{
    lemma_rank_histogram_exists(a);
    let h = rank_histogram(a);
    assert(is_rank_histogram(h, b)) by {
        assert forall|rank: u8| count_of(b, rank) > 0 implies #[trigger] lists_rank(h, rank) by {
            assert(count_of(a, rank) > 0);
        }
    }
    lemma_rank_histogram_found(h, b);
}

/// Appending a rank raises its count by one and leaves the others; no rank
/// occurs more often than there are ranks.
pub proof fn lemma_count_push(ranks: Seq<u8>, added: u8, rank: u8)
    ensures
        count_of(ranks.push(added), rank) == count_of(ranks, rank) + if rank == added {
            1nat
        } else {
            0nat
        },
        count_of(ranks, rank) <= ranks.len(),
{
    broadcast use group_to_multiset_ensures;
    broadcast use group_multiset_axioms;

    assert(ranks.push(added).to_multiset() =~= ranks.to_multiset().insert(added));
    assert(ranks.to_multiset().count(rank) <= ranks.to_multiset().len());
    assert(ranks.to_multiset().len() == ranks.len());
}

/// Two entries of a histogram for the same rank are the same entry.
proof fn lemma_one_entry_per_rank(h: Seq<(u8, usize)>, ranks: Seq<u8>, i: int, j: int)
    requires
        counts_agree(h, ranks),
        in_histogram_order(h),
        0 <= i < h.len(),
        0 <= j < h.len(),
        h[i].0 == h[j].0,
    ensures
        i == j,
{
    if i < j {
        assert(entry_before(h[i], h[j]));
    } else if j < i {
        assert(entry_before(h[j], h[i]));
    }
}

proof fn lemma_histograms_agree_upto(a: Seq<(u8, usize)>, b: Seq<(u8, usize)>, ranks: Seq<u8>, n: int)
    requires
        is_rank_histogram(a, ranks),
        is_rank_histogram(b, ranks),
        0 <= n <= a.len(),
    ensures
        n <= b.len(),
        forall|i: int| 0 <= i < n ==> a[i] == b[i],
    decreases n,
{
    if n > 0 {
        lemma_histograms_agree_upto(a, b, ranks, n - 1);
        let i = n - 1;
        // where a's entry stands in b
        assert(a[i].1 > 0);
        assert(lists_rank(b, a[i].0));
        let jb = choose|j: int| 0 <= j < b.len() && (#[trigger] b[j]).0 == a[i].0;
        assert(b[jb].1 == a[i].1);
        assert(b[jb] == a[i]);
        if jb < i {
            assert(a[jb] == b[jb]);
            lemma_one_entry_per_rank(a, ranks, jb, i);
        }
        assert(i < b.len());
        // where b's entry stands in a
        assert(b[i].1 > 0);
        assert(lists_rank(a, b[i].0));
        let ja = choose|j: int| 0 <= j < a.len() && (#[trigger] a[j]).0 == b[i].0;
        assert(a[ja].1 == b[i].1);
        assert(a[ja] == b[i]);
        if ja < i {
            assert(a[ja] == b[ja]);
            lemma_one_entry_per_rank(b, ranks, ja, i);
        }
        if jb > i && ja > i {
            assert(entry_before(b[i], b[jb]));
            assert(entry_before(a[i], a[ja]));
        }
    }
}

/// Whether `h` is the histogram of `ranks` but for the rank `rank`, for
/// which it has no entry.
spec fn is_histogram_but_for(h: Seq<(u8, usize)>, ranks: Seq<u8>, rank: u8) -> bool {
    &&& counts_agree(h, ranks)
    &&& in_histogram_order(h)
    &&& !lists_rank(h, rank)
    &&& forall|other: u8|
        other != rank && count_of(ranks, other) > 0 ==> #[trigger] lists_rank(h, other)
}

/// Taking the entry for the rank that is about to be appended out of a
/// histogram leaves the histogram of the longer sequence but for that rank.
proof fn lemma_entry_taken_out(h: Seq<(u8, usize)>, ranks: Seq<u8>, rank: u8, at: int)
    requires
        is_rank_histogram(h, ranks),
        0 <= at < h.len(),
        h[at].0 == rank,
    ensures
        is_histogram_but_for(h.remove(at), ranks.push(rank), rank),
        h[at].1 == count_of(ranks, rank),
        h[at].1 < ranks.push(rank).len(),
{
    let rest = h.remove(at);
    let longer = ranks.push(rank);
    lemma_count_push(ranks, rank, rank);
    assert forall|i: int| 0 <= i < rest.len() implies (#[trigger] rest[i]).0 != rank by {
        let k = if i < at {
            i
        } else {
            i + 1
        };
        assert(rest[i] == h[k]);
        if h[k].0 == rank {
            lemma_one_entry_per_rank(h, ranks, k, at);
        }
    }
    assert forall|i: int| 0 <= i < rest.len() implies (#[trigger] rest[i]).1 > 0 && rest[i].1
        == count_of(longer, rest[i].0) by {
        let k = if i < at {
            i
        } else {
            i + 1
        };
        assert(rest[i] == h[k]);
        lemma_count_push(ranks, rank, rest[i].0);
    }
    assert forall|i: int, j: int| 0 <= i < j < rest.len() implies entry_before(
        #[trigger] rest[i],
        #[trigger] rest[j],
    ) by {
        let ki = if i < at {
            i
        } else {
            i + 1
        };
        let kj = if j < at {
            j
        } else {
            j + 1
        };
        assert(rest[i] == h[ki]);
        assert(rest[j] == h[kj]);
        assert(entry_before(h[ki], h[kj]));
    }
    assert forall|other: u8| other != rank && count_of(longer, other) > 0 implies #[trigger] lists_rank(
        rest,
        other,
    ) by {
        lemma_count_push(ranks, rank, other);
        assert(lists_rank(h, other));
        let k = choose|k: int| 0 <= k < h.len() && (#[trigger] h[k]).0 == other;
        let i = if k < at {
            k
        } else {
            k - 1
        };
        assert(rest[i] == h[k]);
    }
}

/// A histogram without an entry for the rank that is about to be appended
/// is the histogram of the longer sequence but for that rank, which then
/// occurs once.
proof fn lemma_entry_absent(h: Seq<(u8, usize)>, ranks: Seq<u8>, rank: u8)
    requires
        is_rank_histogram(h, ranks),
        !lists_rank(h, rank),
    ensures
        is_histogram_but_for(h, ranks.push(rank), rank),
        count_of(ranks.push(rank), rank) == 1,
{
    let longer = ranks.push(rank);
    lemma_count_push(ranks, rank, rank);
    assert forall|i: int| 0 <= i < h.len() implies (#[trigger] h[i]).1 > 0 && h[i].1 == count_of(
        longer,
        h[i].0,
    ) by {
        lemma_count_push(ranks, rank, h[i].0);
    }
    assert forall|other: u8| other != rank && count_of(longer, other) > 0 implies #[trigger] lists_rank(
        h,
        other,
    ) by {
        lemma_count_push(ranks, rank, other);
    }
}

/// Putting the entry for the missing rank where it belongs completes the
/// histogram.
proof fn lemma_entry_put_in(h: Seq<(u8, usize)>, ranks: Seq<u8>, entry: (u8, usize), at: int)
    requires
        is_histogram_but_for(h, ranks, entry.0),
        entry.1 > 0,
        entry.1 == count_of(ranks, entry.0),
        0 <= at <= h.len(),
        forall|k: int| 0 <= k < at ==> entry_before(#[trigger] h[k], entry),
        at < h.len() ==> !entry_before(h[at], entry),
    ensures
        is_rank_histogram(h.insert(at, entry), ranks),
{
    let full = h.insert(at, entry);
    assert forall|k: int| at <= k < h.len() implies entry_before(entry, #[trigger] h[k]) by {
        assert(h[at].0 != entry.0);
        assert(entry_before(entry, h[at]));
        if k > at {
            assert(entry_before(h[at], h[k]));
        }
    }
    assert forall|i: int, j: int| 0 <= i < j < full.len() implies entry_before(
        #[trigger] full[i],
        #[trigger] full[j],
    ) by {
        if j < at {
            assert(entry_before(h[i], h[j]));
        } else if j == at {
            assert(entry_before(h[i], entry));
        } else if i < at {
            assert(entry_before(h[i], h[j - 1]));
        } else if i == at {
            assert(entry_before(entry, h[j - 1]));
        } else {
            assert(entry_before(h[i - 1], h[j - 1]));
        }
    }
    assert forall|i: int| 0 <= i < full.len() implies (#[trigger] full[i]).1 > 0 && full[i].1
        == count_of(ranks, full[i].0) by {
        if i < at {
            assert(full[i] == h[i]);
        } else if i > at {
            assert(full[i] == h[i - 1]);
        }
    }
    assert forall|rank: u8| count_of(ranks, rank) > 0 implies #[trigger] lists_rank(full, rank) by {
        if rank == entry.0 {
            assert(full[at] == entry);
        } else {
            assert(lists_rank(h, rank));
            let k = choose|k: int| 0 <= k < h.len() && (#[trigger] h[k]).0 == rank;
            let i = if k < at {
                k
            } else {
                k + 1
            };
            assert(full[i] == h[k]);
        }
    }
}

/// The number of entries at the front of `h` that stand before `entry`.
spec fn entry_place(h: Seq<(u8, usize)>, entry: (u8, usize)) -> int
    decreases h.len(),
{
    if h.len() == 0 || !entry_before(h[0], entry) {
        0
    } else {
        1 + entry_place(h.drop_first(), entry)
    }
}

proof fn lemma_entry_place(h: Seq<(u8, usize)>, entry: (u8, usize))
    ensures
        0 <= entry_place(h, entry) <= h.len(),
        forall|k: int| 0 <= k < entry_place(h, entry) ==> entry_before(#[trigger] h[k], entry),
        entry_place(h, entry) < h.len() ==> !entry_before(h[entry_place(h, entry)], entry),
    decreases h.len(),
{
    if h.len() > 0 && entry_before(h[0], entry) {
        let rest = h.drop_first();
        lemma_entry_place(rest, entry);
        let at = entry_place(h, entry);
        assert forall|k: int| 0 <= k < at implies entry_before(#[trigger] h[k], entry) by {
            if k > 0 {
                assert(h[k] == rest[k - 1]);
            }
        }
        if at < h.len() {
            assert(h[at] == rest[at - 1]);
        }
    }
}

} // verus!
