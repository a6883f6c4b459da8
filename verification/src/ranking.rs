//! Frequency rankings.
//!
//! A ranking is a sequence of colours with their counts: no colour twice,
//! every count at least one, the larger counts first. Ranking a sequence
//! of entries puts the larger counts first and leaves entries with equal
//! counts in the order they had.

use vstd::prelude::*;
use vstd::seq_lib::{lemma_multiset_commutative, to_multiset_build};

use crate::color::Color;

verus! {

/// The number of samples that come before those of entry `i`: the counts
/// of the entries before it, added up.
pub open spec fn sample_offset(ranking: Seq<(Color, usize)>, i: int) -> int
    decreases i,
{
    if i <= 0 {
        0
    } else {
        sample_offset(ranking, i - 1) + ranking[i - 1].1
    }
}

/// The number of samples of a ranking: all its counts, added up.
pub open spec fn total_samples(ranking: Seq<(Color, usize)>) -> int {
    sample_offset(ranking, ranking.len() as int)
}

/// Every entry of the ranking has at least one sample.
pub open spec fn counts_positive(ranking: Seq<(Color, usize)>) -> bool {
    forall|i: int| 0 <= i < ranking.len() ==> (#[trigger] ranking[i]).1 >= 1
}

/// No colour stands twice in the ranking.
pub open spec fn colors_distinct(ranking: Seq<(Color, usize)>) -> bool {
    forall|i: int, j: int|
        0 <= i < j < ranking.len() ==> (#[trigger] ranking[i]).0 != (#[trigger] ranking[j]).0
}

/// The counts do not grow along the ranking.
pub open spec fn sorted_by_count(ranking: Seq<(Color, usize)>) -> bool {
    forall|i: int, j: int|
        0 <= i <= j < ranking.len() ==> (#[trigger] ranking[i]).1 >= (#[trigger] ranking[j]).1
}

/// A well-formed ranking: no colour twice, no count of zero, larger
/// counts first.
pub open spec fn is_frequency_ranking(ranking: Seq<(Color, usize)>) -> bool {
    &&& colors_distinct(ranking)
    &&& counts_positive(ranking)
    &&& sorted_by_count(ranking)
}

/// Some entry holds the colour `c`.
pub open spec fn holds(entries: Seq<(Color, usize)>, c: Color) -> bool {
    exists|i: int| 0 <= i < entries.len() && (#[trigger] entries[i]).0 == c
}

/// The place of an entry that holds `c`.
pub open spec fn slot(entries: Seq<(Color, usize)>, c: Color) -> int {
    choose|i: int| 0 <= i < entries.len() && (#[trigger] entries[i]).0 == c
}

/// How often `c` was counted: the count of its entry, or zero without one.
pub open spec fn count_of(entries: Seq<(Color, usize)>, c: Color) -> int {
    if holds(entries, c) {
        entries[slot(entries, c)].1 as int
    } else {
        0
    }
}

/// The entries whose count is `n`.
pub open spec fn with_count(n: usize) -> spec_fn((Color, usize)) -> bool {
    |entry: (Color, usize)| entry.1 == n
}

/// `ranking` is `entries` ranked: it holds the same entries, the larger
/// counts first, and entries with equal counts in the order they had.
pub open spec fn is_ranking_of(
    ranking: Seq<(Color, usize)>,
    entries: Seq<(Color, usize)>,
) -> bool {
    &&& sorted_by_count(ranking)
    &&& ranking.to_multiset() == entries.to_multiset()
    &&& forall|n: usize| #[trigger]
        ranking.filter(with_count(n)) == entries.filter(with_count(n))
}

/// Offsets grow with the index.
pub proof fn lemma_sample_offset_monotonic(ranking: Seq<(Color, usize)>, i: int, j: int)
    requires
        i <= j,
    ensures
        sample_offset(ranking, i) <= sample_offset(ranking, j),
        0 <= sample_offset(ranking, i),
    decreases j,
{
    if j > 0 {
        if i == j {
            lemma_sample_offset_monotonic(ranking, i - 1, j - 1);
        } else {
            lemma_sample_offset_monotonic(ranking, i, j - 1);
        }
    }
}

/// An entry with samples has its first sample inside the sample range.
pub proof fn lemma_first_sample_in_range(ranking: Seq<(Color, usize)>, i: int)
    requires
        0 <= i < ranking.len(),
        ranking[i].1 > 0,
    ensures
        0 <= sample_offset(ranking, i) < total_samples(ranking),
{
    lemma_sample_offset_monotonic(ranking, i, i);
    lemma_sample_offset_monotonic(ranking, i + 1, ranking.len() as int);
}

/// Two rankings whose first `n` counts agree have the same offset at `n`.
pub proof fn lemma_sample_offset_agrees(a: Seq<(Color, usize)>, b: Seq<(Color, usize)>, n: int)
    requires
        n <= a.len(),
        n <= b.len(),
        forall|q: int| 0 <= q < n ==> (#[trigger] a[q]).1 == b[q].1,
    ensures
        sample_offset(a, n) == sample_offset(b, n),
    decreases n,
{
    if n > 0 {
        lemma_sample_offset_agrees(a, b, n - 1);
    }
}

/// A new entry adds its count to the total.
pub proof fn lemma_total_samples_push(ranking: Seq<(Color, usize)>, entry: (Color, usize))
    ensures
        total_samples(ranking.push(entry)) == total_samples(ranking) + entry.1,
{
    lemma_sample_offset_agrees(ranking.push(entry), ranking, ranking.len() as int);
}

/// A changed entry changes the total by the difference of the counts.
pub proof fn lemma_sample_offset_update(
    ranking: Seq<(Color, usize)>,
    i: int,
    entry: (Color, usize),
    n: int,
)
    requires
        0 <= i < ranking.len(),
        0 <= n <= ranking.len(),
    ensures
        sample_offset(ranking.update(i, entry), n) == sample_offset(ranking, n) + (if i < n {
            entry.1 - ranking[i].1
        } else {
            0
        }),
    decreases n,
{
    if n > 0 {
        lemma_sample_offset_update(ranking, i, entry, n - 1);
    }
}

/// The total of two rankings in a row is the sum of their totals.
pub proof fn lemma_total_samples_add(a: Seq<(Color, usize)>, b: Seq<(Color, usize)>)
    ensures
        total_samples(a + b) == total_samples(a) + total_samples(b),
    decreases b.len(),
{
    if b.len() > 0 {
        lemma_total_samples_add(a, b.drop_last());
        lemma_total_samples_push(a + b.drop_last(), b.last());
        assert(b =~= b.drop_last().push(b.last()));
        lemma_total_samples_push(b.drop_last(), b.last());
    }
}

/// Leaving an entry out takes its count from the total.
pub proof fn lemma_total_samples_remove(ranking: Seq<(Color, usize)>, i: int)
    requires
        0 <= i < ranking.len(),
    ensures
        total_samples(ranking.remove(i)) == total_samples(ranking) - ranking[i].1,
{
    let front = ranking.take(i);
    let back = ranking.skip(i + 1);
    assert(ranking =~= front.push(ranking[i]) + back);
    lemma_total_samples_add(front, back);
    lemma_total_samples_add(front.push(ranking[i]), back);
    lemma_total_samples_push(front, ranking[i]);
}

/// The total does not depend on the order of the entries.
pub proof fn lemma_total_samples_of_same_entries(
    a: Seq<(Color, usize)>,
    b: Seq<(Color, usize)>,
)
    requires
        a.to_multiset() == b.to_multiset(),
    ensures
        total_samples(a) == total_samples(b),
    decreases a.len(),
{
    a.to_multiset_ensures();
    b.to_multiset_ensures();
    if a.len() > 0 {
        let last = a.len() - 1;
        let entry = a[last];
        assert(b.to_multiset().count(entry) > 0);
        let q = choose|q: int| 0 <= q < b.len() && b[q] == entry;
        lemma_total_samples_of_same_entries(a.remove(last), b.remove(q));
        lemma_total_samples_remove(a, last);
        lemma_total_samples_remove(b, q);
    }
}

/// Ranking keeps what the entries are: no colour twice, no count of zero,
/// every colour with the count it had, and the same total.
pub proof fn lemma_ranking_keeps_counts(
    ranking: Seq<(Color, usize)>,
    entries: Seq<(Color, usize)>,
)
    requires
        ranking.to_multiset() == entries.to_multiset(),
        colors_distinct(entries),
        counts_positive(entries),
    ensures
        colors_distinct(ranking),
        counts_positive(ranking),
        ranking.len() == entries.len(),
        total_samples(ranking) == total_samples(entries),
        forall|d: Color| #[trigger] count_of(ranking, d) == count_of(entries, d),
{
    lemma_total_samples_of_same_entries(ranking, entries);
    ranking.to_multiset_ensures();
    entries.to_multiset_ensures();
    assert forall|i: int| 0 <= i < ranking.len() implies exists|q: int|
        0 <= q < entries.len() && entries[q] == #[trigger] ranking[i] by {
        assert(entries.to_multiset().count(ranking[i]) > 0);
    }
    assert forall|q: int| 0 <= q < entries.len() implies exists|i: int|
        0 <= i < ranking.len() && ranking[i] == #[trigger] entries[q] by {
        assert(ranking.to_multiset().count(entries[q]) > 0);
    }
    entries.lemma_multiset_has_no_duplicates();
    ranking.lemma_multiset_has_no_duplicates_conv();
}

proof fn lemma_filter_nothing<A>(s: Seq<A>, pred: spec_fn(A) -> bool)
    requires
        forall|q: int| 0 <= q < s.len() ==> !pred(#[trigger] s[q]),
    ensures
        s.filter(pred) == Seq::<A>::empty(),
    decreases s.len(),
{
    reveal(Seq::filter);
    if s.len() > 0 {
        lemma_filter_nothing(s.drop_last(), pred);
    }
}

/// Merges two ranked runs into one. Where the counts are equal the entry
/// of `a` goes first.
fn merge_ranked(a: &Vec<(Color, usize)>, b: &Vec<(Color, usize)>) -> (out: Vec<(Color, usize)>)
    requires
        sorted_by_count(a@),
        sorted_by_count(b@),
    ensures
        sorted_by_count(out@),
        out@.to_multiset() == a@.to_multiset().add(b@.to_multiset()),
        forall|n: usize| #[trigger]
            out@.filter(with_count(n)) == a@.filter(with_count(n)) + b@.filter(with_count(n)),
{
    let mut out: Vec<(Color, usize)> = Vec::new();
    let mut i: usize = 0;
    let mut j: usize = 0;
    proof {
        assert(a@.take(0) =~= Seq::<(Color, usize)>::empty());
        assert(b@.take(0) =~= Seq::<(Color, usize)>::empty());
        out@.to_multiset_ensures();
    }
    while i < a.len() || j < b.len()
        invariant
            i <= a@.len(),
            j <= b@.len(),
            sorted_by_count(a@),
            sorted_by_count(b@),
            sorted_by_count(out@),
            forall|p: int|
                0 <= p < out@.len() && i < a@.len() ==> (#[trigger] out@[p]).1 >= a@[i as int].1,
            forall|p: int|
                0 <= p < out@.len() && j < b@.len() ==> (#[trigger] out@[p]).1 >= b@[j as int].1,
            forall|q: int| 0 <= q < j && i < a@.len() ==> (#[trigger] b@[q]).1 > a@[i as int].1,
            out@.to_multiset() == a@.take(i as int).to_multiset().add(
                b@.take(j as int).to_multiset(),
            ),
            forall|n: usize| #[trigger]
                out@.filter(with_count(n)) == a@.take(i as int).filter(with_count(n)) + b@.take(
                    j as int,
                ).filter(with_count(n)),
        decreases a@.len() - i + b@.len() - j,
    {
        let ghost before = out@;
        let take_left: bool = if i < a.len() {
            if j < b.len() {
                a[i].1 >= b[j].1
            } else {
                true
            }
        } else {
            false
        };
        if take_left {
            let entry = a[i];
            out.push(entry);
            proof {
                let left = a@.take(i as int);
                let right = b@.take(j as int);
                assert(a@.take(i + 1) =~= left.push(entry));
                to_multiset_build(before, entry);
                to_multiset_build(left, entry);
                assert forall|n: usize| #[trigger]
                    out@.filter(with_count(n)) == a@.take(i + 1).filter(with_count(n))
                        + right.filter(with_count(n)) by {
                    before.lemma_filter_push(entry, with_count(n));
                    left.lemma_filter_push(entry, with_count(n));
                    if entry.1 == n {
                        lemma_filter_nothing(right, with_count(n));
                    }
                }
            }
            i += 1;
        } else {
            let entry = b[j];
            out.push(entry);
            proof {
                let left = a@.take(i as int);
                let right = b@.take(j as int);
                assert(b@.take(j + 1) =~= right.push(entry));
                to_multiset_build(before, entry);
                to_multiset_build(right, entry);
                assert forall|n: usize| #[trigger]
                    out@.filter(with_count(n)) == left.filter(with_count(n)) + b@.take(
                        j + 1,
                    ).filter(with_count(n)) by {
                    before.lemma_filter_push(entry, with_count(n));
                    right.lemma_filter_push(entry, with_count(n));
                }
            }
            j += 1;
        }
    }
    proof {
        assert(a@.take(i as int) =~= a@);
        assert(b@.take(j as int) =~= b@);
    }
    out
}

/// Ranks the entries from `lo` up to `hi` by a merge sort.
fn rank_range(entries: &[(Color, usize)], lo: usize, hi: usize) -> (out: Vec<(Color, usize)>)
    requires
        lo <= hi <= entries@.len(),
    ensures
        is_ranking_of(out@, entries@.subrange(lo as int, hi as int)),
    decreases hi - lo,
{
    let ghost whole = entries@.subrange(lo as int, hi as int);
    if hi - lo <= 1 {
        let mut out: Vec<(Color, usize)> = Vec::new();
        if hi - lo == 1 {
            out.push(entries[lo]);
        }
        proof {
            assert(out@ =~= whole);
        }
        return out;
    }
    let mid: usize = lo + (hi - lo) / 2;
    let left = rank_range(entries, lo, mid);
    let right = rank_range(entries, mid, hi);
    let out = merge_ranked(&left, &right);
    proof {
        let first = entries@.subrange(lo as int, mid as int);
        let second = entries@.subrange(mid as int, hi as int);
        assert(whole =~= first + second);
        lemma_multiset_commutative(first, second);
    }
    out
}

/// The entries ranked by their counts: the larger counts first, entries
/// with equal counts in the order they had.
pub fn rank_by_count(entries: &[(Color, usize)]) -> (ranking: Vec<(Color, usize)>)
    ensures
        is_ranking_of(ranking@, entries@),
{
    let n: usize = entries.len();
    let ranking = rank_range(entries, 0, n);
    proof {
        assert(entries@.subrange(0, n as int) =~= entries@);
    }
    ranking
}

/// The first `limit` entries of a ranking, or all of them where it holds
/// fewer: of a frequency ranking, the colours seen most often.
pub fn top_colors(color_ranking: &[(Color, usize)], limit: usize) -> (top: Vec<(Color, usize)>)
    ensures
        limit <= color_ranking@.len() ==> top@ == color_ranking@.take(limit as int),
        limit > color_ranking@.len() ==> top@ == color_ranking@,
{
    let n: usize = if limit <= color_ranking.len() {
        limit
    } else {
        color_ranking.len()
    };
    let mut top: Vec<(Color, usize)> = Vec::new();
    let mut i: usize = 0;
    while i < n
        invariant
            i <= n <= color_ranking@.len(),
            top@ == color_ranking@.take(i as int),
        decreases n - i,
    {
        top.push(color_ranking[i]);
        i += 1;
    }
    top
}

} // verus!
