//! Sorted lists of inclusive ranges, as sequences of pairs of first and last value.

use std::ops::{Range, RangeInclusive};

use vstd::prelude::*;
use vstd::std_specs::range::RangeInclusiveView;

verus! {

/// Whether the entries are sorted and disjoint, with last values that have a successor. An entry
/// may hold nothing: then its last value is one below its first.
pub open spec fn ordered(entries: Seq<(u64, u64)>) -> bool {
    &&& forall|i: int|
        0 <= i < entries.len() ==> (#[trigger] entries[i]).0 <= entries[i].1 + 1 && entries[i].1
            < u64::MAX
    &&& forall|i: int, j: int|
        0 <= i < j < entries.len() ==> (#[trigger] entries[i]).1 < (#[trigger] entries[j]).0
}

/// Whether one of the entries holds `x`.
pub open spec fn holds(entries: Seq<(u64, u64)>, x: int) -> bool {
    exists|i: int| 0 <= i < entries.len() && (#[trigger] entries[i]).0 <= x <= entries[i].1
}

/// Whether each entry holds at least one value.
pub open spec fn inhabited(entries: Seq<(u64, u64)>) -> bool {
    forall|i: int| 0 <= i < entries.len() ==> (#[trigger] entries[i]).0 <= entries[i].1
}

/// Whether a value lies between any two entries that follow each other.
pub open spec fn apart(entries: Seq<(u64, u64)>) -> bool {
    forall|i: int, j: int|
        0 <= i < j < entries.len() ==> (#[trigger] entries[i]).1 + 1 < (#[trigger] entries[j]).0
}

/// Whether `ranges` are the entries, as ranges that nobody has iterated over yet.
pub open spec fn lists(ranges: Seq<RangeInclusive<u64>>, entries: Seq<(u64, u64)>) -> bool {
    &&& ranges.len() == entries.len()
    &&& forall|i: int|
        0 <= i < entries.len() ==> (#[trigger] ranges[i])@ == (RangeInclusiveView {
            start: entries[i].0,
            end: entries[i].1,
            exhausted: false,
        })
}

/// How many leading entries end before `start`, in a sorted list.
pub open spec fn ending_before(entries: Seq<(u64, u64)>, start: int) -> nat
    decreases entries.len(),
{
    if entries.len() == 0 {
        0
    } else if entries.last().1 < start {
        entries.len()
    } else {
        ending_before(entries.drop_last(), start)
    }
}

/// How many leading entries begin at `last` or before it, in a sorted list.
pub open spec fn beginning_by(entries: Seq<(u64, u64)>, last: int) -> nat
    decreases entries.len(),
{
    if entries.len() == 0 {
        0
    } else if entries.last().0 <= last {
        entries.len()
    } else {
        beginning_by(entries.drop_last(), last)
    }
}

/// The values of `start..=last` that lie between the entries `i - 1` and `i`: one range, or
/// none.
pub open spec fn gap_before(entries: Seq<(u64, u64)>, start: int, last: int, i: int) -> Seq<
    (u64, u64),
> {
    let from = if i > 0 && entries[i - 1].1 + 1 > start {
        entries[i - 1].1 + 1
    } else {
        start
    };
    let to = if i < entries.len() && entries[i].0 - 1 < last {
        entries[i].0 - 1
    } else {
        last
    };
    if from <= to {
        seq![(from as u64, to as u64)]
    } else {
        seq![]
    }
}

/// The gaps before the first `n` entries, in order.
pub open spec fn gaps_before(entries: Seq<(u64, u64)>, start: int, last: int, n: nat) -> Seq<
    (u64, u64),
>
    decreases n,
{
    if n == 0 {
        seq![]
    } else {
        gaps_before(entries, start, last, (n - 1) as nat) + gap_before(
            entries,
            start,
            last,
            n - 1,
        )
    }
}

/// The ranges of `start..=last` that the entries leave uncovered, in order.
pub open spec fn gaps(entries: Seq<(u64, u64)>, start: int, last: int) -> Seq<(u64, u64)> {
    gaps_before(entries, start, last, entries.len() + 1)
}

/// The entries once `start..=last` is covered by one entry, which takes in every entry that
/// shares a value with it, and one that begins right behind it.
pub open spec fn with_cover(entries: Seq<(u64, u64)>, start: u64, last: u64) -> Seq<(u64, u64)> {
    let lo = ending_before(entries, start as int) as int;
    let hi = beginning_by(entries, last + 1) as int;
    let first = if lo < hi && entries[lo].0 < start {
        entries[lo].0
    } else {
        start
    };
    let end = if lo < hi && entries[hi - 1].1 > last {
        entries[hi - 1].1
    } else {
        last
    };
    entries.take(lo) + seq![(first, end)] + entries.skip(hi)
}

pub(crate) proof fn lemma_ending_before(entries: Seq<(u64, u64)>, start: int, n: int)
    requires
        0 <= n <= entries.len(),
        forall|i: int| 0 <= i < n ==> (#[trigger] entries[i]).1 < start,
        forall|i: int| n <= i < entries.len() ==> (#[trigger] entries[i]).1 >= start,
    ensures
        ending_before(entries, start) == n,
    decreases entries.len(),
{
    if entries.len() > n {
        lemma_ending_before(entries.drop_last(), start, n);
    }
}

pub(crate) proof fn lemma_beginning_by(entries: Seq<(u64, u64)>, last: int, n: int)
    requires
        0 <= n <= entries.len(),
        forall|i: int| 0 <= i < n ==> (#[trigger] entries[i]).0 <= last,
        forall|i: int| n <= i < entries.len() ==> (#[trigger] entries[i]).0 > last,
    ensures
        beginning_by(entries, last) == n,
    decreases entries.len(),
{
    if entries.len() > n {
        lemma_beginning_by(entries.drop_last(), last, n);
    }
}

/// No gap stands before an entry that ends before the range.
pub(crate) proof fn lemma_no_gaps_below(entries: Seq<(u64, u64)>, start: int, last: int, n: nat)
    requires
        ordered(entries),
        n <= entries.len(),
        forall|i: int| 0 <= i < n ==> (#[trigger] entries[i]).1 < start,
    ensures
        gaps_before(entries, start, last, n) == Seq::<(u64, u64)>::empty(),
    decreases n,
{
    if n > 0 {
        lemma_no_gaps_below(entries, start, last, (n - 1) as nat);
        assert(entries[n - 1].0 <= entries[n - 1].1 + 1);
    }
}

/// No gap stands behind an entry that begins behind the range.
pub(crate) proof fn lemma_no_gaps_above(entries: Seq<(u64, u64)>, start: int, last: int, n: nat, m: nat)
    requires
        ordered(entries),
        n < m <= entries.len() + 1,
        forall|i: int| n <= i < entries.len() ==> (#[trigger] entries[i]).0 > last + 1,
    ensures
        gaps_before(entries, start, last, m) == gaps_before(entries, start, last, n + 1),
    decreases m,
{
    if n + 1 < m {
        lemma_no_gaps_above(entries, start, last, n, (m - 1) as nat);
        assert(entries[m - 2].0 <= entries[m - 2].1 + 1);
        assert(gap_before(entries, start, last, m - 1) =~= Seq::<(u64, u64)>::empty());
    }
}

/// The gaps before the first `n` entries hold what lies in the range, ahead of entry `n - 1`,
/// and in no entry.
pub(crate) proof fn lemma_gaps_before_hold(
    entries: Seq<(u64, u64)>,
    start: int,
    last: int,
    n: nat,
    x: int,
)
    requires
        ordered(entries),
        0 <= start,
        last < u64::MAX,
        n <= entries.len() + 1,
    ensures
        holds(gaps_before(entries, start, last, n), x) <==> {
            &&& 0 < n
            &&& start <= x <= last
            &&& !holds(entries, x)
            &&& n <= entries.len() ==> x < entries[n - 1].0
        },
    decreases n,
{
    let all = gaps_before(entries, start, last, n);
    if n > 0 {
        let head = gaps_before(entries, start, last, (n - 1) as nat);
        let tail = gap_before(entries, start, last, n - 1);
        lemma_gaps_before_hold(entries, start, last, (n - 1) as nat, x);
        lemma_holds_concat(head, tail, x);
        if holds(tail, x) {
            assert(tail[0].0 <= x <= tail[0].1);
            if holds(entries, x) {
                let i = choose|i: int|
                    0 <= i < entries.len() && (#[trigger] entries[i]).0 <= x <= entries[i].1;
                if i < n - 1 {
                    assert(i == n - 2 || entries[i].1 < entries[n - 2].0);
                    assert(entries[n - 2].0 <= entries[n - 2].1 + 1);
                } else {
                    assert(i == n - 1 || entries[n - 1].1 < entries[i].0);
                    assert(entries[n - 1].0 <= entries[n - 1].1 + 1);
                }
                assert(false);
            }
        }
        if start <= x <= last && !holds(entries, x) && (n <= entries.len() ==> x < entries[n
            - 1].0) {
            if n >= 2 && x < entries[n - 2].0 {
                assert(holds(head, x));
            } else {
                if n >= 2 {
                    assert(!(entries[n - 2].0 <= x <= entries[n - 2].1));
                }
                assert(tail[0].0 <= x <= tail[0].1);
            }
        }
        if holds(head, x) && n <= entries.len() {
            assert(entries[n - 2].0 <= entries[n - 2].1 + 1);
            assert(entries[n - 2].1 < entries[n - 1].0);
        }
    }
}

/// What two lists hold together is what one or the other holds.
pub(crate) proof fn lemma_holds_concat(a: Seq<(u64, u64)>, b: Seq<(u64, u64)>, x: int)
    ensures
        holds(a + b, x) <==> holds(a, x) || holds(b, x),
{
    if holds(a, x) {
        let i = choose|i: int| 0 <= i < a.len() && (#[trigger] a[i]).0 <= x <= a[i].1;
        assert((a + b)[i] == a[i]);
    }
    if holds(b, x) {
        let i = choose|i: int| 0 <= i < b.len() && (#[trigger] b[i]).0 <= x <= b[i].1;
        assert((a + b)[a.len() + i] == b[i]);
    }
    if holds(a + b, x) {
        let i = choose|i: int|
            0 <= i < (a + b).len() && (#[trigger] (a + b)[i]).0 <= x <= (a + b)[i].1;
        if i < a.len() {
            assert(a[i] == (a + b)[i]);
        } else {
            assert(b[i - a.len()] == (a + b)[i]);
        }
    }
}

/// The gaps hold exactly the values of the range that no entry holds.
pub proof fn law_gaps_are_what_is_missing(entries: Seq<(u64, u64)>, start: int, last: int, x: int)
    requires
        ordered(entries),
        0 <= start,
        last < u64::MAX,
    ensures
        holds(gaps(entries, start, last), x) <==> start <= x <= last && !holds(entries, x),
{
    lemma_gaps_before_hold(entries, start, last, entries.len() + 1, x);
}

/// The gaps are entries themselves that hold a value each. No two of them touch where the entries
/// hold a value each, too.
pub(crate) proof fn lemma_gaps_ordered(entries: Seq<(u64, u64)>, start: int, last: int, n: nat)
    requires
        ordered(entries),
        0 <= start,
        last < u64::MAX,
        n <= entries.len() + 1,
    ensures
        ordered(gaps_before(entries, start, last, n)),
        inhabited(gaps_before(entries, start, last, n)),
        inhabited(entries) ==> apart(gaps_before(entries, start, last, n)),
        n > 0 ==> forall|i: int|
            0 <= i < gaps_before(entries, start, last, n).len() ==> {
                &&& start <= (#[trigger] gaps_before(entries, start, last, n)[i]).0
                &&& gaps_before(entries, start, last, n)[i].1 <= last
                &&& n <= entries.len() ==> gaps_before(entries, start, last, n)[i].1 < entries[n
                    - 1].0
            },
    decreases n,
{
    if n > 0 {
        lemma_gaps_ordered(entries, start, last, (n - 1) as nat);
        if n >= 2 {
            assert(entries[n - 2].0 <= entries[n - 2].1 + 1);
            if n <= entries.len() {
                assert(entries[n - 2].1 < entries[n - 1].0);
            }
        }
    }
}

/// Covering a range keeps the entries sorted and adds exactly the values of the range.
pub(crate) proof fn lemma_with_cover(entries: Seq<(u64, u64)>, start: u64, last: u64)
    requires
        ordered(entries),
        start <= last < u64::MAX,
    ensures
        ordered(with_cover(entries, start, last)),
        inhabited(entries) ==> inhabited(with_cover(entries, start, last)),
        forall|x: int| #[trigger]
            holds(with_cover(entries, start, last), x) <==> holds(entries, x) || start <= x <= last,
{
    let lo = ending_before(entries, start as int) as int;
    let hi = beginning_by(entries, last + 1) as int;
    lemma_split(entries, start as int, last + 1);
    let new = with_cover(entries, start, last);
    let (first, end) = new[lo];
    assert(new.len() == lo + 1 + (entries.len() - hi));
    assert forall|i: int| 0 <= i < lo implies new[i] == entries[i] by {}
    assert forall|i: int| lo < i < new.len() implies new[i] == entries[i - lo - 1 + hi] by {}
    if lo < hi {
        assert(entries[lo].0 <= entries[lo].1 + 1);
        assert(entries[hi - 1].0 <= entries[hi - 1].1 + 1);
    }
    assert forall|i: int, j: int| 0 <= i < j < new.len() implies (#[trigger] new[i]).1 < (
    #[trigger] new[j]).0 by {
        if j == lo {
            assert(entries[i].1 < start);
            if lo < hi {
                assert(entries[i].1 < entries[lo].0);
            }
        } else if i == lo {
            assert(entries[j - lo - 1 + hi].0 > last + 1);
            if lo < hi {
                assert(entries[hi - 1].1 < entries[j - lo - 1 + hi].0);
            }
        }
    }
    assert forall|x: int| #[trigger] holds(new, x) <==> holds(entries, x) || start <= x <= last by {
        if start <= x <= last {
            assert(new[lo].0 <= x <= new[lo].1);
        }
        if holds(entries, x) {
            let i = choose|i: int|
                0 <= i < entries.len() && (#[trigger] entries[i]).0 <= x <= entries[i].1;
            if i < lo {
                assert(new[i] == entries[i]);
            } else if i < hi {
                assert(i == lo || entries[lo].1 < entries[i].0);
                assert(i == hi - 1 || entries[i].1 < entries[hi - 1].0);
                assert(new[lo].0 <= x <= new[lo].1);
            } else {
                assert(new[i + lo + 1 - hi] == entries[i]);
            }
        }
        if holds(new, x) && !(start <= x <= last) {
            let i = choose|i: int|
                0 <= i < new.len() && (#[trigger] new[i]).0 <= x <= new[i].1;
            if i < lo {
                assert(entries[i].0 <= x <= entries[i].1);
            } else if i > lo {
                assert(entries[i - lo - 1 + hi].0 <= x <= entries[i - lo - 1 + hi].1);
            } else if x < start {
                assert(entries[lo].0 <= x <= entries[lo].1);
            } else {
                assert(entries[hi - 1].0 <= x <= entries[hi - 1].1);
            }
        }
    }
}

/// In sorted entries the two counts split the list.
pub(crate) proof fn lemma_split(entries: Seq<(u64, u64)>, start: int, last: int)
    requires
        ordered(entries),
    ensures
        0 <= ending_before(entries, start) <= entries.len(),
        0 <= beginning_by(entries, last) <= entries.len(),
        forall|i: int|
            0 <= i < ending_before(entries, start) ==> (#[trigger] entries[i]).1 < start,
        forall|i: int|
            ending_before(entries, start) <= i < entries.len() ==> (#[trigger] entries[i]).1
                >= start,
        forall|i: int| 0 <= i < beginning_by(entries, last) ==> (#[trigger] entries[i]).0 <= last,
        forall|i: int|
            beginning_by(entries, last) <= i < entries.len() ==> (#[trigger] entries[i]).0 > last,
        start <= last ==> ending_before(entries, start) <= beginning_by(entries, last),
    decreases entries.len(),
{
    if entries.len() > 0 {
        let front = entries.drop_last();
        lemma_split(front, start, last);
        let n = entries.len() - 1;
        assert(entries[n].0 <= entries[n].1 + 1);
        assert forall|i: int| 0 <= i < n implies (#[trigger] entries[i]).1 <= entries[n].1
            && entries[i].0 <= entries[n].0 by {
            assert(entries[i].1 < entries[n].0);
            assert(entries[i].0 <= entries[i].1 + 1);
        }
        assert forall|i: int| 0 <= i < n implies front[i] == entries[i] by {}
        assert forall|i: int|
            ending_before(entries, start) <= i < entries.len() implies (#[trigger] entries[i]).1
            >= start by {
            if i < n {
                assert(front[i].1 >= start);
            }
        }
        assert forall|i: int|
            beginning_by(entries, last) <= i < entries.len() implies (#[trigger] entries[i]).0
            > last by {
            if i < n {
                assert(front[i].0 > last);
            }
        }
        assert forall|i: int|
            0 <= i < ending_before(entries, start) implies (#[trigger] entries[i]).1 < start by {
            if entries[n].1 >= start {
                assert(front[i].1 < start);
            }
        }
        assert forall|i: int|
            0 <= i < beginning_by(entries, last) implies (#[trigger] entries[i]).0 <= last by {
            if entries[n].0 > last {
                assert(front[i].0 <= last);
            }
        }
        if start <= last && ending_before(entries, start) > beginning_by(entries, last) {
            let i = beginning_by(entries, last) as int;
            assert(entries[i].1 < start);
            assert(entries[i].0 > last);
            assert(entries[i].0 <= entries[i].1 + 1);
            assert(false);
        }
    }
}

/// There is no gap exactly if no value is missing.
pub(crate) proof fn lemma_gaps_empty(entries: Seq<(u64, u64)>, start: int, last: int)
    requires
        ordered(entries),
        0 <= start,
        last < u64::MAX,
    ensures
        gaps(entries, start, last).len() == 0 <==> forall|x: int|
            start <= x <= last ==> #[trigger] holds(entries, x),
        gaps(entries, start, last).len() > 0 ==> start <= last,
{
    let g = gaps(entries, start, last);
    lemma_gaps_ordered(entries, start, last, entries.len() + 1);
    if g.len() > 0 {
        let x = g[0].0 as int;
        assert(holds(g, x));
        law_gaps_are_what_is_missing(entries, start, last, x);
    } else {
        assert forall|x: int| start <= x <= last implies #[trigger] holds(entries, x) by {
            law_gaps_are_what_is_missing(entries, start, last, x);
        }
    }
}

/// Whether an entry ends at `start` or behind it and begins at `last` or before it.
pub open spec fn reaches(entry: (u64, u64), start: int, last: int) -> bool {
    entry.1 >= start && entry.0 <= last
}

/// The part of an entry that lies in `start..=last`.
pub open spec fn clipped(entry: (u64, u64), start: u64, last: u64) -> (u64, u64) {
    (
        if entry.0 < start {
            start
        } else {
            entry.0
        },
        if entry.1 > last {
            last
        } else {
            entry.1
        },
    )
}

/// What is left of an entry on either side of `start..=last`.
pub open spec fn trimmed(entry: (u64, u64), start: u64, last: u64) -> Seq<(u64, u64)> {
    (if entry.0 < start {
        seq![(entry.0, (start - 1) as u64)]
    } else {
        seq![]
    }) + (if entry.1 > last {
        seq![((last + 1) as u64, entry.1)]
    } else {
        seq![]
    })
}

/// The entries without the values of `start..=last`.
pub open spec fn without(entries: Seq<(u64, u64)>, start: u64, last: u64) -> Seq<(u64, u64)>
    decreases entries.len(),
{
    if entries.len() == 0 {
        seq![]
    } else {
        without(entries.drop_last(), start, last) + if reaches(
            entries.last(),
            start as int,
            last as int,
        ) {
            trimmed(entries.last(), start, last)
        } else {
            seq![entries.last()]
        }
    }
}

/// The parts of the entries that lie in `start..=last`. Of an entry that reaches over an empty
/// range that is a part that holds nothing.
pub open spec fn within(entries: Seq<(u64, u64)>, start: u64, last: u64) -> Seq<(u64, u64)>
    decreases entries.len(),
{
    if entries.len() == 0 {
        seq![]
    } else {
        within(entries.drop_last(), start, last) + if reaches(
            entries.last(),
            start as int,
            last as int,
        ) {
            seq![clipped(entries.last(), start, last)]
        } else {
            seq![]
        }
    }
}

/// Whether an entry is cut to `start..=last`, or begins right behind it, when all else is
/// uncovered. A range that runs backward cuts no entry.
pub open spec fn is_cut(entry: (u64, u64), start: u64, last: u64) -> bool {
    start <= last + 1 && reaches(entry, start as int, last + 1)
}

/// What is left of an entry when all but `start..=last` is uncovered: one entry, or none if that
/// would hold nothing of what the entry held.
pub open spec fn remnant(entry: (u64, u64), start: u64, last: u64) -> Seq<(u64, u64)> {
    let part = clipped(entry, start, last);
    if is_cut(entry, start, last) && (part.0 <= part.1 || part == entry) {
        seq![part]
    } else {
        seq![]
    }
}

/// The entries that are left when all but `start..=last` is uncovered.
pub open spec fn kept(entries: Seq<(u64, u64)>, start: u64, last: u64) -> Seq<(u64, u64)>
    decreases entries.len(),
{
    if entries.len() == 0 {
        seq![]
    } else {
        kept(entries.drop_last(), start, last) + remnant(entries.last(), start, last)
    }
}

/// The ranges that are given up when all but `start..=last` is uncovered.
///
/// An entry that reaches over an empty range is given up in two parts.
pub open spec fn freed(entries: Seq<(u64, u64)>, start: u64, last: u64) -> Seq<(u64, u64)>
    decreases entries.len(),
{
    if entries.len() == 0 {
        seq![]
    } else {
        freed(entries.drop_last(), start, last) + if is_cut(entries.last(), start, last) {
            trimmed(entries.last(), start, last)
        } else {
            seq![entries.last()]
        }
    }
}

/// The entries once all but the range is uncovered.
pub open spec fn confined(entries: Seq<(u64, u64)>, range: Range<u64>) -> Seq<(u64, u64)> {
    if freed(entries, range.start, (range.end - 1) as u64).len() == 0 {
        entries
    } else {
        kept(entries, range.start, (range.end - 1) as u64)
    }
}

/// How many values the entries hold, counted entry by entry.
pub open spec fn total(entries: Seq<(u64, u64)>) -> int
    decreases entries.len(),
{
    if entries.len() == 0 {
        0
    } else {
        total(entries.drop_last()) + (entries.last().1 - entries.last().0 + 1)
    }
}

/// The entries that a range adds up to when it is covered on top of others.
pub open spec fn updated(entries: Seq<(u64, u64)>, range: Range<u64>) -> Seq<(u64, u64)> {
    if gaps(entries, range.start as int, range.end - 1).len() == 0 {
        entries
    } else {
        with_cover(entries, range.start, (range.end - 1) as u64)
    }
}

/// The entries that the ranges add up to when they are covered on top of others, one after the
/// other.
pub open spec fn with_all(entries: Seq<(u64, u64)>, ranges: Seq<Range<u64>>) -> Seq<(u64, u64)>
    decreases ranges.len(),
{
    if ranges.len() == 0 {
        entries
    } else {
        updated(with_all(entries, ranges.drop_last()), ranges.last())
    }
}

/// The entries without the values that other entries hold.
pub open spec fn without_all(entries: Seq<(u64, u64)>, gone: Seq<(u64, u64)>) -> Seq<(u64, u64)>
    decreases gone.len(),
{
    if gone.len() == 0 {
        entries
    } else {
        without(without_all(entries, gone.drop_last()), gone.last().0, gone.last().1)
    }
}

/// Whether one of the ranges holds `x`.
pub open spec fn in_ranges(ranges: Seq<Range<u64>>, x: int) -> bool {
    exists|i: int| 0 <= i < ranges.len() && (#[trigger] ranges[i]).start <= x < ranges[i].end
}

/// Whether the ranges run forward, or are empty behind the first value.
pub open spec fn forward(ranges: Seq<Range<u64>>) -> bool {
    forall|i: int|
        0 <= i < ranges.len() ==> (#[trigger] ranges[i]).start <= ranges[i].end && 1
            <= ranges[i].end
}

/// Appending one entry adds the values of that entry.
pub(crate) proof fn lemma_holds_last(entries: Seq<(u64, u64)>, x: int)
    requires
        entries.len() > 0,
    ensures
        holds(entries, x) <==> holds(entries.drop_last(), x) || entries.last().0 <= x
            <= entries.last().1,
{
    let last = seq![entries.last()];
    assert(entries =~= entries.drop_last() + last);
    lemma_holds_concat(entries.drop_last(), last, x);
    lemma_holds_one(entries.last(), x);
}

pub(crate) proof fn lemma_holds_one(entry: (u64, u64), x: int)
    ensures
        holds(seq![entry], x) <==> entry.0 <= x <= entry.1,
{
    if entry.0 <= x <= entry.1 {
        assert(seq![entry][0].0 <= x);
    }
}

/// The two sides of an entry hold what the entry holds outside the range.
pub(crate) proof fn lemma_trimmed(entry: (u64, u64), start: u64, last: u64, x: int)
    requires
        start <= last + 1,
        last < u64::MAX,
    ensures
        reaches(entry, start as int, last + 1) ==> (holds(trimmed(entry, start, last), x) <==> (
        entry.0 <= x <= entry.1 && !(start <= x <= last))),
{
    let a = if entry.0 < start {
        seq![(entry.0, (start - 1) as u64)]
    } else {
        Seq::<(u64, u64)>::empty()
    };
    let b = if entry.1 > last {
        seq![((last + 1) as u64, entry.1)]
    } else {
        Seq::<(u64, u64)>::empty()
    };
    lemma_holds_concat(a, b, x);
    lemma_holds_one((entry.0, (start - 1) as u64), x);
    lemma_holds_one(((last + 1) as u64, entry.1), x);
}

/// Appending entries that begin behind all others keeps the order.
pub(crate) proof fn lemma_ordered_concat(a: Seq<(u64, u64)>, b: Seq<(u64, u64)>)
    requires
        ordered(a),
        ordered(b),
        forall|i: int, j: int|
            0 <= i < a.len() && 0 <= j < b.len() ==> (#[trigger] a[i]).1 < (#[trigger] b[j]).0,
    ensures
        ordered(a + b),
{
    let c = a + b;
    assert forall|i: int| 0 <= i < c.len() implies (#[trigger] c[i]).0 <= c[i].1 + 1 && c[i].1
        < u64::MAX by {
        if i < a.len() {
            assert(c[i] == a[i]);
        } else {
            assert(c[i] == b[i - a.len()]);
        }
    }
    assert forall|i: int, j: int| 0 <= i < j < c.len() implies (#[trigger] c[i]).1 < (
    #[trigger] c[j]).0 by {
        if j < a.len() {
            assert(a[i].1 < a[j].0);
        } else if i < a.len() {
            assert(a[i].1 < b[j - a.len()].0);
        } else {
            assert(b[i - a.len()].1 < b[j - a.len()].0);
        }
    }
}

/// Appending entries that hold a value each keeps that so.
pub(crate) proof fn lemma_inhabited_concat(a: Seq<(u64, u64)>, b: Seq<(u64, u64)>)
    requires
        inhabited(a),
        inhabited(b),
    ensures
        inhabited(a + b),
{
    let c = a + b;
    assert forall|i: int| 0 <= i < c.len() implies (#[trigger] c[i]).0 <= c[i].1 by {
        if i < a.len() {
            assert(c[i] == a[i]);
        } else {
            assert(c[i] == b[i - a.len()]);
        }
    }
}

/// Taking a range out keeps the entries sorted and removes exactly the values of the range.
pub(crate) proof fn lemma_without(entries: Seq<(u64, u64)>, start: u64, last: u64)
    requires
        ordered(entries),
        start <= last + 1,
        last < u64::MAX,
    ensures
        ordered(without(entries, start, last)),
        inhabited(entries) ==> inhabited(without(entries, start, last)),
        inhabited(entries) && start <= last ==> inhabited(within(entries, start, last)),
        forall|i: int|
            0 <= i < without(entries, start, last).len() ==> entries.len() > 0 && (
            #[trigger] without(entries, start, last)[i]).1 <= entries.last().1,
        forall|x: int| #[trigger]
            holds(without(entries, start, last), x) <==> holds(entries, x) && !(start <= x <= last),
        forall|x: int| #[trigger]
            holds(within(entries, start, last), x) <==> holds(entries, x) && start <= x <= last,
    decreases entries.len(),
{
    if entries.len() > 0 {
        let front = entries.drop_last();
        let e = entries.last();
        lemma_without(front, start, last);
        let n = entries.len() - 1;
        assert(e.0 <= e.1 + 1 && e.1 < u64::MAX) by {
            assert(entries[n].0 <= entries[n].1 + 1);
        }
        if n > 0 {
            assert(entries[n - 1].1 < entries[n].0);
        }
        assert(ordered(front)) by {
            assert forall|i: int| 0 <= i < front.len() implies front[i] == entries[i] by {}
        }
        let a = without(front, start, last);
        let b = if reaches(e, start as int, last as int) {
            trimmed(e, start, last)
        } else {
            seq![e]
        };
        assert(without(entries, start, last) == a + b);
        assert(ordered(b));
        lemma_ordered_concat(a, b);
        if inhabited(entries) {
            assert(entries[n].0 <= entries[n].1);
            assert(inhabited(front));
            lemma_inhabited_concat(a, b);
        }
        assert forall|x: int| #[trigger] holds(a + b, x) <==> holds(entries, x) && !(start <= x
            <= last) by {
            lemma_holds_concat(a, b, x);
            lemma_holds_last(entries, x);
            lemma_trimmed(e, start, last, x);
            lemma_holds_one(e, x);
        }
        let c = within(front, start, last);
        let d = if reaches(e, start as int, last as int) {
            seq![clipped(e, start, last)]
        } else {
            Seq::<(u64, u64)>::empty()
        };
        if inhabited(entries) && start <= last {
            lemma_inhabited_concat(c, d);
        }
        assert forall|x: int| #[trigger] holds(c + d, x) <==> holds(entries, x) && start <= x
            <= last by {
            lemma_holds_concat(c, d, x);
            lemma_holds_last(entries, x);
            lemma_holds_one(clipped(e, start, last), x);
        }
    }
}

/// Keeping one range keeps the entries sorted and keeps exactly the values of the range.
pub(crate) proof fn lemma_kept(entries: Seq<(u64, u64)>, start: u64, last: u64)
    requires
        ordered(entries),
        last < u64::MAX,
    ensures
        ordered(kept(entries, start, last)),
        ordered(freed(entries, start, last)),
        inhabited(entries) ==> inhabited(kept(entries, start, last)),
        inhabited(entries) ==> inhabited(freed(entries, start, last)),
        forall|i: int|
            0 <= i < kept(entries, start, last).len() ==> entries.len() > 0 && (#[trigger] kept(
                entries,
                start,
                last,
            )[i]).1 <= entries.last().1,
        forall|i: int|
            0 <= i < freed(entries, start, last).len() ==> entries.len() > 0 && (#[trigger] freed(
                entries,
                start,
                last,
            )[i]).1 <= entries.last().1,
        forall|x: int| #[trigger]
            holds(kept(entries, start, last), x) <==> holds(entries, x) && start <= x <= last,
        forall|x: int| #[trigger]
            holds(freed(entries, start, last), x) <==> holds(entries, x) && !(start <= x <= last),
    decreases entries.len(),
{
    if entries.len() > 0 {
        let front = entries.drop_last();
        let e = entries.last();
        let n = entries.len() - 1;
        assert forall|i: int| 0 <= i < front.len() implies front[i] == entries[i] by {}
        assert(ordered(front));
        lemma_kept(front, start, last);
        assert(e.0 <= e.1 + 1 && e.1 < u64::MAX) by {
            assert(entries[n].0 <= entries[n].1 + 1);
        }
        if n > 0 {
            assert(entries[n - 1].1 < entries[n].0);
        }
        let hit = is_cut(e, start, last);
        let a = kept(front, start, last);
        let b = remnant(e, start, last);
        assert(kept(entries, start, last) == a + b);
        assert(ordered(b));
        lemma_ordered_concat(a, b);
        let c = freed(front, start, last);
        let d = if hit {
            trimmed(e, start, last)
        } else {
            seq![e]
        };
        assert(freed(entries, start, last) == c + d);
        assert(ordered(d));
        lemma_ordered_concat(c, d);
        if inhabited(entries) {
            assert(entries[n].0 <= entries[n].1);
            assert(inhabited(front));
            lemma_inhabited_concat(a, b);
            lemma_inhabited_concat(c, d);
        }
        assert forall|x: int| #[trigger] holds(a + b, x) <==> holds(entries, x) && start <= x
            <= last by {
            lemma_holds_concat(a, b, x);
            lemma_holds_last(entries, x);
            lemma_holds_one(clipped(e, start, last), x);
        }
        assert forall|x: int| #[trigger] holds(c + d, x) <==> holds(entries, x) && !(start <= x
            <= last) by {
            lemma_holds_concat(c, d, x);
            lemma_holds_last(entries, x);
            if hit {
                lemma_trimmed(e, start, last, x);
            }
            lemma_holds_one(e, x);
        }
    }
}

/// Counted entry by entry or value by value, the entries hold equally many values.
pub(crate) proof fn lemma_total(entries: Seq<(u64, u64)>)
    requires
        ordered(entries),
    ensures
        Set::new(|x: int| holds(entries, x)).finite(),
        Set::new(|x: int| holds(entries, x)).len() == total(entries),
        0 <= total(entries),
        entries.len() > 0 ==> total(entries) <= entries.last().1 + 1,
    decreases entries.len(),
{
    let all = Set::new(|x: int| holds(entries, x));
    if entries.len() == 0 {
        assert(all =~= Set::empty());
    } else {
        let front = entries.drop_last();
        let e = entries.last();
        let n = entries.len() - 1;
        assert forall|i: int| 0 <= i < front.len() implies front[i] == entries[i] by {}
        lemma_total(front);
        assert(entries[n].0 <= entries[n].1 + 1);
        if n > 0 {
            assert(entries[n - 1].1 < entries[n].0);
        }
        let a = Set::new(|x: int| holds(front, x));
        let b = vstd::set_lib::set_int_range(e.0 as int, e.1 + 1);
        vstd::set_lib::lemma_int_range(e.0 as int, e.1 + 1);
        assert forall|x: int| #[trigger] all.contains(x) <==> a.union(b).contains(x) by {
            lemma_holds_last(entries, x);
        }
        assert(all =~= a.union(b));
        assert(a.disjoint(b)) by {
            assert forall|x: int| a.contains(x) implies !b.contains(x) by {
                let i = choose|i: int|
                    0 <= i < front.len() && (#[trigger] front[i]).0 <= x <= front[i].1;
                assert(entries[i].1 < entries[n].0);
            }
        }
        vstd::set_lib::lemma_set_disjoint_lens(a, b);
    }
}

/// Where no entry reaches into the range, there is nothing to take out.
pub(crate) proof fn lemma_untouched(entries: Seq<(u64, u64)>, start: u64, last: u64)
    requires
        within(entries, start, last).len() == 0,
    ensures
        without(entries, start, last) == entries,
    decreases entries.len(),
{
    if entries.len() > 0 {
        lemma_untouched(entries.drop_last(), start, last);
        assert(entries =~= entries.drop_last() + seq![entries.last()]);
    }
}

/// Covering a range adds exactly its values, and leaves nothing of it to be covered.
pub proof fn law_cover_adds_the_range(entries: Seq<(u64, u64)>, range: Range<u64>)
    requires
        ordered(entries),
        range.start <= range.end,
        1 <= range.end,
    ensures
        ordered(updated(entries, range)),
        forall|x: int| #[trigger]
            holds(updated(entries, range), x) <==> holds(entries, x) || range.start <= x
                < range.end,
        gaps(updated(entries, range), range.start as int, range.end - 1).len() == 0,
{
    let last = (range.end - 1) as u64;
    lemma_gaps_empty(entries, range.start as int, last as int);
    if gaps(entries, range.start as int, last as int).len() > 0 {
        lemma_with_cover(entries, range.start, last);
    }
    lemma_gaps_empty(updated(entries, range), range.start as int, last as int);
}

/// The ranges that are missing hold a value each, and no two of them touch where the entries hold
/// a value each, too.
pub proof fn law_missing_ranges_do_not_touch(entries: Seq<(u64, u64)>, range: Range<u64>)
    requires
        ordered(entries),
        1 <= range.end,
    ensures
        ordered(gaps(entries, range.start as int, range.end - 1)),
        inhabited(gaps(entries, range.start as int, range.end - 1)),
        inhabited(entries) ==> apart(gaps(entries, range.start as int, range.end - 1)),
{
    lemma_gaps_ordered(entries, range.start as int, range.end - 1, entries.len() + 1);
}

/// Whatever is done to entries that hold a value each, the entries that come of it hold one
/// each, too.
pub proof fn law_entries_stay_inhabited(entries: Seq<(u64, u64)>, range: Range<u64>)
    requires
        ordered(entries),
        inhabited(entries),
        range.start <= range.end,
        1 <= range.end,
    ensures
        inhabited(updated(entries, range)),
        inhabited(without(entries, range.start, (range.end - 1) as u64)),
        range.start < range.end ==> inhabited(
            within(entries, range.start, (range.end - 1) as u64),
        ),
        inhabited(kept(entries, range.start, (range.end - 1) as u64)),
        inhabited(freed(entries, range.start, (range.end - 1) as u64)),
{
    let last = (range.end - 1) as u64;
    lemma_gaps_empty(entries, range.start as int, last as int);
    if gaps(entries, range.start as int, last as int).len() > 0 {
        lemma_with_cover(entries, range.start, last);
    }
    lemma_without(entries, range.start, last);
    lemma_kept(entries, range.start, last);
}

/// Of entries that hold a value each, uncovering all but a range that is not empty leaves the very
/// parts that lie in the range.
pub proof fn law_what_is_kept_lies_within(entries: Seq<(u64, u64)>, start: u64, last: u64)
    requires
        inhabited(entries),
        start <= last,
    ensures
        kept(entries, start, last) == within(entries, start, last),
    decreases entries.len(),
{
    if entries.len() > 0 {
        let front = entries.drop_last();
        assert forall|i: int| 0 <= i < front.len() implies front[i] == entries[i] by {}
        assert(entries[entries.len() - 1].0 <= entries.last().1);
        law_what_is_kept_lies_within(front, start, last);
    }
}

/// Covering ranges one after the other adds exactly their values.
pub proof fn law_cover_adds_all_ranges(entries: Seq<(u64, u64)>, ranges: Seq<Range<u64>>)
    requires
        ordered(entries),
        forward(ranges),
    ensures
        ordered(with_all(entries, ranges)),
        forall|x: int| #[trigger]
            holds(with_all(entries, ranges), x) <==> holds(entries, x) || in_ranges(ranges, x),
    decreases ranges.len(),
{
    if ranges.len() > 0 {
        let front = ranges.drop_last();
        assert forall|i: int| 0 <= i < front.len() implies front[i] == ranges[i] by {}
        law_cover_adds_all_ranges(entries, front);
        assert(ranges[ranges.len() - 1].start <= ranges.last().end);
        law_cover_adds_the_range(with_all(entries, front), ranges.last());
        assert forall|x: int| #[trigger] in_ranges(ranges, x) <==> in_ranges(front, x)
            || ranges.last().start <= x < ranges.last().end by {
            if in_ranges(front, x) {
                let i = choose|i: int|
                    0 <= i < front.len() && (#[trigger] front[i]).start <= x < front[i].end;
                assert(ranges[i].start <= x < ranges[i].end);
            }
            if ranges.last().start <= x < ranges.last().end {
                assert(ranges[ranges.len() - 1].start <= x);
            }
            if in_ranges(ranges, x) {
                let i = choose|i: int|
                    0 <= i < ranges.len() && (#[trigger] ranges[i]).start <= x < ranges[i].end;
                if i < front.len() {
                    assert(front[i].start <= x < front[i].end);
                }
            }
        }
    }
}

/// Taking entries out of others takes out exactly their values.
pub proof fn law_taking_out_all(entries: Seq<(u64, u64)>, gone: Seq<(u64, u64)>)
    requires
        ordered(entries),
        ordered(gone),
    ensures
        ordered(without_all(entries, gone)),
        forall|x: int| #[trigger]
            holds(without_all(entries, gone), x) <==> holds(entries, x) && !holds(gone, x),
    decreases gone.len(),
{
    if gone.len() > 0 {
        let front = gone.drop_last();
        assert forall|i: int| 0 <= i < front.len() implies front[i] == gone[i] by {}
        law_taking_out_all(entries, front);
        assert(gone[gone.len() - 1].0 <= gone.last().1 + 1);
        lemma_without(without_all(entries, front), gone.last().0, gone.last().1);
        assert forall|x: int| #[trigger] holds(gone, x) <==> holds(front, x) || gone.last().0 <= x
            <= gone.last().1 by {
            lemma_holds_last(gone, x);
        }
    }
}

/// Covering a range a second time changes nothing.
pub proof fn law_cover_twice(entries: Seq<(u64, u64)>, range: Range<u64>)
    requires
        ordered(entries),
        range.start <= range.end,
        1 <= range.end,
    ensures
        updated(updated(entries, range), range) == updated(entries, range),
{
    law_cover_adds_the_range(entries, range);
}

/// Uncovering a range takes exactly its values out, and gives exactly those that were covered.
pub proof fn law_uncover_takes_the_range_out(entries: Seq<(u64, u64)>, start: u64, last: u64)
    requires
        ordered(entries),
        start <= last + 1,
        last < u64::MAX,
    ensures
        ordered(without(entries, start, last)),
        forall|x: int| #[trigger]
            holds(without(entries, start, last), x) <==> holds(entries, x) && !(start <= x <= last),
        forall|x: int| #[trigger]
            holds(within(entries, start, last), x) <==> holds(entries, x) && start <= x <= last,
{
    lemma_without(entries, start, last);
}

/// Covering what was uncovered brings all values back.
pub proof fn law_cover_undoes_uncover(entries: Seq<(u64, u64)>, range: Range<u64>)
    requires
        ordered(entries),
        range.start <= range.end,
        1 <= range.end,
        forall|x: int| range.start <= x < range.end ==> #[trigger] holds(entries, x),
    ensures
        forall|x: int| #[trigger]
            holds(
                updated(without(entries, range.start, (range.end - 1) as u64), range),
                x,
            ) <==> holds(entries, x),
{
    let last = (range.end - 1) as u64;
    lemma_without(entries, range.start, last);
    law_cover_adds_the_range(without(entries, range.start, last), range);
}

/// Uncovering all but a range keeps exactly what was covered of the range, and gives exactly
/// the rest of what was covered.
pub proof fn law_uncover_except_keeps_the_range(
    entries: Seq<(u64, u64)>,
    start: u64,
    last: u64,
)
    requires
        ordered(entries),
        last < u64::MAX,
    ensures
        ordered(kept(entries, start, last)),
        ordered(freed(entries, start, last)),
        forall|x: int| #[trigger]
            holds(kept(entries, start, last), x) <==> holds(entries, x) && start <= x <= last,
        forall|x: int| #[trigger]
            holds(freed(entries, start, last), x) <==> holds(entries, x) && !(start <= x <= last),
{
    lemma_kept(entries, start, last);
}

/// What a range touches, when it is covered, is joined with it to one entry. All other entries
/// stay as they are. Gives the index of the one entry.
pub proof fn law_cover_joins_what_it_touches(
    entries: Seq<(u64, u64)>,
    range: Range<u64>,
    missing: int,
) -> (i: int)
    requires
        ordered(entries),
        range.start <= missing < range.end,
        !holds(entries, missing),
    ensures
        0 <= i < updated(entries, range).len(),
        updated(entries, range)[i].0 <= range.start,
        updated(entries, range)[i].1 >= range.end - 1,
        updated(entries, range)[i].0 == range.start || exists|j: int|
            0 <= j < entries.len() && (#[trigger] entries[j]).1 >= range.start && entries[j].0
                <= range.end && entries[j].0 == updated(entries, range)[i].0,
        updated(entries, range)[i].1 == range.end - 1 || exists|j: int|
            0 <= j < entries.len() && (#[trigger] entries[j]).1 >= range.start && entries[j].0
                <= range.end && entries[j].1 == updated(entries, range)[i].1,
        forall|j: int|
            0 <= j < entries.len() && (#[trigger] entries[j]).1 >= range.start && entries[j].0
                <= range.end ==> updated(entries, range)[i].0 <= entries[j].0 && entries[j].1
                <= updated(entries, range)[i].1,
        forall|j: int|
            0 <= j < entries.len() && ((#[trigger] entries[j]).1 < range.start || entries[j].0
                > range.end) ==> updated(entries, range).contains(entries[j]),
        forall|k: int|
            0 <= k < updated(entries, range).len() && k != i ==> entries.contains(
                #[trigger] updated(entries, range)[k],
            ) && (updated(entries, range)[k].1 < range.start || updated(entries, range)[k].0
                > range.end),
{
    let (start, last) = (range.start, (range.end - 1) as u64);
    lemma_gaps_empty(entries, start as int, last as int);
    lemma_with_cover(entries, start, last);
    lemma_split(entries, start as int, last + 1);
    let lo = ending_before(entries, start as int) as int;
    let hi = beginning_by(entries, last + 1) as int;
    let new = updated(entries, range);
    assert(new == with_cover(entries, start, last));
    assert forall|j: int|
        0 <= j < entries.len() && (#[trigger] entries[j]).1 >= start && entries[j].0
            <= range.end implies new[lo].0 <= entries[j].0 && entries[j].1 <= new[lo].1 by {
        assert(lo <= j < hi);
        assert(j == lo || entries[lo].1 < entries[j].0);
        assert(j == hi - 1 || entries[j].1 < entries[hi - 1].0);
        assert(entries[lo].0 <= entries[lo].1 + 1);
        assert(entries[hi - 1].0 <= entries[hi - 1].1 + 1);
    }
    assert forall|j: int|
        0 <= j < entries.len() && ((#[trigger] entries[j]).1 < start || entries[j].0
            > range.end) implies new.contains(entries[j]) by {
        if j < lo {
            assert(new[j] == entries[j]);
        } else {
            assert(j >= hi);
            assert(new[j - hi + lo + 1] == entries[j]);
        }
    }
    assert forall|k: int| 0 <= k < new.len() && k != lo implies entries.contains(
        #[trigger] new[k],
    ) && (new[k].1 < start || new[k].0 > range.end) by {
        if k < lo {
            assert(new[k] == entries[k]);
        } else {
            assert(new[k] == entries[k - lo - 1 + hi]);
        }
    }
    lo
}

/// Covering a range of which no value is missing changes nothing.
pub proof fn law_cover_of_what_is_covered(entries: Seq<(u64, u64)>, range: Range<u64>)
    requires
        ordered(entries),
        1 <= range.end,
        forall|x: int| range.start <= x < range.end ==> #[trigger] holds(entries, x),
    ensures
        updated(entries, range) == entries,
{
    lemma_gaps_empty(entries, range.start as int, range.end - 1);
}

proof fn lemma_contains_concat(a: Seq<(u64, u64)>, b: Seq<(u64, u64)>, e: (u64, u64))
    ensures
        (a + b).contains(e) <==> a.contains(e) || b.contains(e),
{
    if a.contains(e) {
        let i = choose|i: int| 0 <= i < a.len() && a[i] == e;
        assert((a + b)[i] == e);
    }
    if b.contains(e) {
        let i = choose|i: int| 0 <= i < b.len() && b[i] == e;
        assert((a + b)[a.len() + i] == e);
    }
    if (a + b).contains(e) {
        let i = choose|i: int| 0 <= i < (a + b).len() && (a + b)[i] == e;
        if i < a.len() {
            assert(a[i] == e);
        } else {
            assert(b[i - a.len()] == e);
        }
    }
}

proof fn lemma_contains_last(entries: Seq<(u64, u64)>, e: (u64, u64))
    requires
        entries.len() > 0,
    ensures
        entries.contains(e) <==> entries.drop_last().contains(e) || e == entries.last(),
{
    let one = seq![entries.last()];
    assert(entries =~= entries.drop_last() + one);
    lemma_contains_concat(entries.drop_last(), one, e);
    assert(one[0] == entries.last());
}

/// What is uncovered of an entry, and what is left of it on either side, when a range is
/// uncovered. Entries that do not reach into the range stay as they are.
pub proof fn law_uncover_cuts_entries(
    entries: Seq<(u64, u64)>,
    start: u64,
    last: u64,
    e: (u64, u64),
)
    requires
        last < u64::MAX,
    ensures
        entries.contains(e) && !(e.1 >= start && e.0 <= last) ==> without(
            entries,
            start,
            last,
        ).contains(e),
        entries.contains(e) && e.1 >= start && e.0 <= last && e.0 < start ==> without(
            entries,
            start,
            last,
        ).contains((e.0, (start - 1) as u64)),
        entries.contains(e) && e.1 >= start && e.0 <= last && e.1 > last ==> without(
            entries,
            start,
            last,
        ).contains(((last + 1) as u64, e.1)),
        without(entries, start, last).contains(e) ==> exists|f: (u64, u64)| #[trigger]
            entries.contains(f) && {
                ||| e == f && !(f.1 >= start && f.0 <= last)
                ||| f.1 >= start && f.0 <= last && f.0 < start && e == (f.0, (start - 1) as u64)
                ||| f.1 >= start && f.0 <= last && f.1 > last && e == ((last + 1) as u64, f.1)
            },
        entries.contains(e) && e.1 >= start && e.0 <= last ==> within(
            entries,
            start,
            last,
        ).contains(
            (
                if e.0 < start {
                    start
                } else {
                    e.0
                },
                if e.1 > last {
                    last
                } else {
                    e.1
                },
            ),
        ),
        within(entries, start, last).contains(e) ==> exists|f: (u64, u64)| #[trigger]
            entries.contains(f) && f.1 >= start && f.0 <= last && e.0 == (if f.0 < start {
                start
            } else {
                f.0
            }) && e.1 == (if f.1 > last {
                last
            } else {
                f.1
            }),
    decreases entries.len(),
{
    if entries.len() > 0 {
        let front = entries.drop_last();
        let l = entries.last();
        law_uncover_cuts_entries(front, start, last, e);
        lemma_contains_last(entries, e);
        lemma_contains_last(entries, l);
        let a = without(front, start, last);
        let b = if reaches(l, start as int, last as int) {
            trimmed(l, start, last)
        } else {
            seq![l]
        };
        let c = within(front, start, last);
        let d = if reaches(l, start as int, last as int) {
            seq![clipped(l, start, last)]
        } else {
            Seq::<(u64, u64)>::empty()
        };
        lemma_trimmed_contains(l, start, last, e);
        let (x, y) = ((e.0, (start - 1) as u64), ((last + 1) as u64, e.1));
        let z = clipped(e, start, last);
        lemma_trimmed_contains(l, start, last, x);
        lemma_trimmed_contains(l, start, last, y);
        lemma_contains_concat(a, b, e);
        lemma_contains_concat(a, b, x);
        lemma_contains_concat(a, b, y);
        lemma_contains_concat(c, d, e);
        lemma_contains_concat(c, d, z);
        assert(seq![l][0] == l);
        assert(seq![clipped(l, start, last)][0] == clipped(l, start, last));
        assert forall|f: (u64, u64)| #[trigger] front.contains(f) implies entries.contains(f) by {
            lemma_contains_last(entries, f);
        }
    }
}

proof fn lemma_trimmed_contains(l: (u64, u64), start: u64, last: u64, e: (u64, u64))
    ensures
        trimmed(l, start, last).contains(e) <==> {
            ||| l.0 < start && e == (l.0, (start - 1) as u64)
            ||| l.1 > last && e == ((last + 1) as u64, l.1)
        },
{
    let a = if l.0 < start {
        seq![(l.0, (start - 1) as u64)]
    } else {
        Seq::<(u64, u64)>::empty()
    };
    let b = if l.1 > last {
        seq![((last + 1) as u64, l.1)]
    } else {
        Seq::<(u64, u64)>::empty()
    };
    lemma_contains_concat(a, b, e);
    assert(l.0 < start ==> a[0] == (l.0, (start - 1) as u64));
    assert(l.1 > last ==> b[0] == ((last + 1) as u64, l.1));
}

/// What is kept and what is given up of entries that hold a value each when all but a range that
/// is not empty is uncovered.
pub proof fn law_uncover_except_cuts_entries(
    entries: Seq<(u64, u64)>,
    start: u64,
    last: u64,
    e: (u64, u64),
)
    requires
        inhabited(entries),
        start <= last < u64::MAX,
    ensures
        entries.contains(e) && e.1 >= start && e.0 <= last ==> kept(
            entries,
            start,
            last,
        ).contains(
            (
                if e.0 < start {
                    start
                } else {
                    e.0
                },
                if e.1 > last {
                    last
                } else {
                    e.1
                },
            ),
        ),
        kept(entries, start, last).contains(e) ==> exists|f: (u64, u64)| #[trigger]
            entries.contains(f) && f.1 >= start && f.0 <= last && e.0 == (if f.0 < start {
                start
            } else {
                f.0
            }) && e.1 == (if f.1 > last {
                last
            } else {
                f.1
            }),
        entries.contains(e) && !(e.1 >= start && e.0 <= last) ==> freed(
            entries,
            start,
            last,
        ).contains(e),
        entries.contains(e) && e.1 >= start && e.0 < start ==> freed(
            entries,
            start,
            last,
        ).contains((e.0, (start - 1) as u64)),
        entries.contains(e) && e.0 <= last && e.1 > last ==> freed(entries, start, last).contains(
            ((last + 1) as u64, e.1),
        ),
        freed(entries, start, last).contains(e) ==> exists|f: (u64, u64)| #[trigger]
            entries.contains(f) && {
                ||| e == f && !(f.1 >= start && f.0 <= last)
                ||| f.1 >= start && f.0 < start && e == (f.0, (start - 1) as u64)
                ||| f.0 <= last && f.1 > last && e == ((last + 1) as u64, f.1)
            },
    decreases entries.len(),
{
    law_what_is_kept_lies_within(entries, start, last);
    law_uncover_cuts_entries(entries, start, last, e);
    if entries.len() > 0 {
        let front = entries.drop_last();
        let l = entries.last();
        assert forall|i: int| 0 <= i < front.len() implies front[i] == entries[i] by {}
        assert(entries[entries.len() - 1].0 <= l.1);
        law_uncover_except_cuts_entries(front, start, last, e);
        lemma_contains_last(entries, e);
        lemma_contains_last(entries, l);
        let a = freed(front, start, last);
        let b = if is_cut(l, start, last) {
            trimmed(l, start, last)
        } else {
            seq![l]
        };
        let (x, y) = ((e.0, (start - 1) as u64), ((last + 1) as u64, e.1));
        lemma_trimmed_contains(l, start, last, e);
        lemma_trimmed_contains(l, start, last, x);
        lemma_trimmed_contains(l, start, last, y);
        lemma_contains_concat(a, b, e);
        lemma_contains_concat(a, b, x);
        lemma_contains_concat(a, b, y);
        assert(seq![l][0] == l);
        assert forall|f: (u64, u64)| #[trigger] front.contains(f) implies entries.contains(f) by {
            lemma_contains_last(entries, f);
        }
    }
}

/// An empty range, or one that runs backward, keeps nothing of entries that hold a value each, and
/// what is given up is all that they hold.
pub proof fn law_uncover_except_nothing(
    entries: Seq<(u64, u64)>,
    start: u64,
    last: u64,
    x: int,
)
    requires
        ordered(entries),
        inhabited(entries),
        last < start,
        last < u64::MAX,
    ensures
        kept(entries, start, last) == Seq::<(u64, u64)>::empty(),
        holds(freed(entries, start, last), x) <==> holds(entries, x),
{
    lemma_kept(entries, start, last);
    let k = kept(entries, start, last);
    if k.len() > 0 {
        assert(holds(k, k[0].0 as int)) by {
            assert(k[0].0 <= k[0].1);
        }
    }
    assert(k =~= Seq::<(u64, u64)>::empty());
}

/// What the words say of entries: that they are ordered and hold something, that they hold a value,
/// that ranges list them, and that ranges run forward and hold a value.
pub proof fn law_what_is_said_of_entries(
    entries: Seq<(u64, u64)>,
    ranges: Seq<RangeInclusive<u64>>,
    more: Seq<Range<u64>>,
    range: Range<u64>,
    i: int,
    j: int,
    x: int,
)
    ensures
        ordered(entries) && 0 <= i < j < entries.len() ==> entries[i].1 < entries[j].0,
        ordered(entries) && 0 <= i < entries.len() ==> entries[i].0 <= entries[i].1 + 1,
        inhabited(entries) && 0 <= i < entries.len() ==> entries[i].0 <= entries[i].1,
        apart(entries) && 0 <= i < j < entries.len() ==> entries[i].1 + 1 < entries[j].0,
        holds(entries, x) <==> exists|k: int|
            0 <= k < entries.len() && (#[trigger] entries[k]).0 <= x <= entries[k].1,
        lists(ranges, entries) ==> ranges.len() == entries.len(),
        lists(ranges, entries) && 0 <= i < ranges.len() ==> ranges[i]@.start == entries[i].0
            && ranges[i]@.end == entries[i].1 && !ranges[i]@.exhausted,
        !in_ranges(seq![], x),
        in_ranges(more.push(range), x) <==> in_ranges(more, x) || range.start <= x < range.end,
        forward(seq![]),
        forward(more.push(range)) <==> forward(more) && range.start <= range.end && range.end > 0,
{
    let all = more.push(range);
    if in_ranges(more, x) {
        let k = choose|k: int|
            0 <= k < more.len() && (#[trigger] more[k]).start <= x < more[k].end;
        assert(all[k].start <= x < all[k].end);
    }
    if range.start <= x < range.end {
        assert(all[more.len() as int].start <= x < all[more.len() as int].end);
    }
    assert forall|k: int| 0 <= k < more.len() implies #[trigger] more[k] == all[k] by {}
    assert(all[more.len() as int] == range);
}

} // verus!
