//! A set of `u64` values, kept as a sorted list of inclusive ranges.

use std::ops::{Range, RangeInclusive};

use vstd::prelude::*;
use vstd::string::StringExecFns;

use crate::bisect::{bisect_left, bisect_right};
use crate::decimal;
use crate::entries;

verus! {

/// Keeps track of a range of values with potential holes in it.
///
/// The values are held as entries, each with a first and a last value. The entries are
/// sorted and no two share a value. Two entries may touch, and an entry may hold nothing, if it
/// was made of an empty range: then its last value is one below its first.
#[derive(Debug, PartialEq, Eq)]
pub struct SparseRange {
    left: Vec<u64>,
    right: Vec<u64>,
}

/// `v` with the values at `lo..hi` replaced by those of `middle`.
fn spliced(v: &Vec<u64>, lo: usize, hi: usize, middle: &Vec<u64>) -> (r: Vec<u64>)
    requires
        lo <= hi <= v@.len(),
    ensures
        r@ == v@.take(lo as int) + middle@ + v@.skip(hi as int),
{
    let mut r: Vec<u64> = Vec::new();
    for i in 0..lo
        invariant
            lo <= v@.len(),
            r@ == v@.take(i as int),
    {
        r.push(v[i]);
    }
    for i in 0..middle.len()
        invariant
            lo <= v@.len(),
            r@ == v@.take(lo as int) + middle@.take(i as int),
    {
        r.push(middle[i]);
    }
    assert(middle@.take(middle@.len() as int) =~= middle@);
    for i in hi..v.len()
        invariant
            lo <= hi <= v@.len(),
            r@ == v@.take(lo as int) + middle@ + v@.subrange(hi as int, i as int),
    {
        r.push(v[i]);
    }
    r
}

impl SparseRange {
    /// The entries, as pairs of first and last value.
    pub closed spec fn entries(&self) -> Seq<(u64, u64)> {
        Seq::new(self.left@.len(), |i: int| (self.left@[i], self.right@[i]))
    }

    /// The invariant.
    pub closed spec fn wf(&self) -> bool {
        &&& self.left@.len() == self.right@.len()
        &&& entries::ordered(self.entries())
    }
}

impl SparseRange {
    /// The entries of a range are sorted and disjoint, and hold finitely many values in all.
    pub proof fn law_entries_are_ordered(&self)
        requires
            self.wf(),
        ensures
            entries::ordered(self.entries()),
            self@.finite(),
            self@.len() == entries::total(self.entries()),
    {
        entries::lemma_total(self.entries());
        assert(self@ =~= Set::new(|x: int| entries::holds(self.entries(), x)));
    }
}

impl View for SparseRange {
    type V = Set<int>;

    /// The covered values.
    open spec fn view(&self) -> Set<int> {
        Set::new(|x: int| entries::holds(self.entries(), x))
    }
}

impl SparseRange {
    /// Whether the whole of a range is covered.
    pub open spec fn covers(&self, range: Range<u64>) -> bool {
        forall|x: int| range.start <= x < range.end ==> #[trigger] self@.contains(x)
    }

    /// Construct a new SparseRange from an initial covered range. An empty range gives
    /// an entry that holds nothing.
    pub fn from_range(range: Range<u64>) -> (r: Self)
        requires
            range.start <= range.end,
            1 <= range.end,
        ensures
            r.wf(),
            r.entries() == seq![(range.start, (range.end - 1) as u64)],
            forall|x: int| #[trigger] r@.contains(x) <==> range.start <= x < range.end,
    {
        let r = SparseRange { left: vec![range.start], right: vec![range.end - 1] };
        proof {
            assert(r.entries() =~= seq![(range.start, (range.end - 1) as u64)]);
            assert forall|x: int| range.start <= x < range.end implies #[trigger] r@.contains(
                x,
            ) by {
                assert(r.entries()[0].0 <= x <= r.entries()[0].1);
            }
        }
        r
    }

    proof fn lemma_bounds_sorted(&self)
        requires
            self.wf(),
        ensures
            crate::bisect::sorted(self.left@),
            crate::bisect::sorted(self.right@),
    {
        let e = self.entries();
        assert forall|i: int, j: int| 0 <= i <= j < e.len() implies self.left@[i] <= self.left@[j]
            && self.right@[i] <= self.right@[j] by {
            assert(e[i].0 <= e[i].1 + 1);
            assert(e[j].0 <= e[j].1 + 1);
            if i < j {
                assert(e[i].1 < e[j].0);
            }
        }
    }

    /// The indices of the entries that end at `start` or behind it and begin at `last` or
    /// before it.
    fn touched(&self, start: u64, last: u64) -> (r: (usize, usize))
        requires
            self.wf(),
        ensures
            r.0 == entries::ending_before(self.entries(), start as int),
            r.1 == entries::beginning_by(self.entries(), last as int),
            r.0 <= self.entries().len(),
            r.1 <= self.entries().len(),
            forall|i: int| 0 <= i < r.0 ==> (#[trigger] self.entries()[i]).1 < start,
            forall|i: int|
                r.0 <= i < self.entries().len() ==> (#[trigger] self.entries()[i]).1 >= start,
            forall|i: int| 0 <= i < r.1 ==> (#[trigger] self.entries()[i]).0 <= last,
            forall|i: int|
                r.1 <= i < self.entries().len() ==> (#[trigger] self.entries()[i]).0 > last,
            start <= last ==> r.0 <= r.1,
    {
        proof {
            self.lemma_bounds_sorted();
        }
        let left_index = bisect_left(&self.right, start);
        let right_index = bisect_right(&self.left, last);
        proof {
            entries::lemma_ending_before(self.entries(), start as int, left_index as int);
            entries::lemma_beginning_by(self.entries(), last as int, right_index as int);
            entries::lemma_split(self.entries(), start as int, last as int);
        }
        (left_index, right_index)
    }

    /// The ranges of `range_start..=range_end` that are not covered, where `lo..hi` are the
    /// entries that share a value with it or begin right behind it.
    fn missing(&self, range_start: u64, range_end: u64, lo: usize, hi: usize) -> (r: Vec<
        RangeInclusive<u64>,
    >)
        requires
            self.wf(),
            range_start <= range_end + 1,
            range_end < u64::MAX,
            lo <= hi <= self.entries().len(),
            forall|k: int| 0 <= k < lo ==> (#[trigger] self.entries()[k]).1 < range_start,
            forall|k: int|
                lo <= k < self.entries().len() ==> (#[trigger] self.entries()[k]).1 >= range_start,
            forall|k: int| 0 <= k < hi ==> (#[trigger] self.entries()[k]).0 <= range_end + 1,
            forall|k: int|
                hi <= k < self.entries().len() ==> (#[trigger] self.entries()[k]).0 > range_end + 1,
        ensures
            entries::lists(r@, entries::gaps(self.entries(), range_start as int, range_end as int)),
    {
        let ghost e = self.entries();
        let ghost s = range_start as int;
        let ghost l = range_end as int;
        let mut ranges: Vec<RangeInclusive<u64>> = Vec::new();
        let mut bound: u64 = range_start;
        proof {
            entries::lemma_no_gaps_below(e, s, l, lo as nat);
        }
        let mut i: usize = lo;
        while i < hi
            invariant
                self.wf(),
                e == self.entries(),
                lo <= i <= hi <= e.len(),
                s == range_start,
                l == range_end,
                l < u64::MAX,
                forall|k: int| 0 <= k < lo ==> (#[trigger] e[k]).1 < s,
                forall|k: int| lo <= k < e.len() ==> (#[trigger] e[k]).1 >= s,
                forall|k: int| 0 <= k < hi ==> (#[trigger] e[k]).0 <= l + 1,
                i == lo ==> bound == range_start,
                i > lo ==> bound == e[i - 1].1 + 1,
                entries::lists(ranges@, entries::gaps_before(e, s, l, i as nat)),
            decreases hi - i,
        {
            let left_bound: u64 = self.left[i];
            let right_bound: u64 = self.right[i];
            assert(e[i as int] == (left_bound, right_bound));
            if left_bound > bound {
                ranges.push(RangeInclusive::new(bound, left_bound - 1));
                assert(entries::gap_before(e, s, l, i as int) =~= seq![(bound, (left_bound - 1) as u64)]);
            } else {
                assert(entries::gap_before(e, s, l, i as int) =~= Seq::<(u64, u64)>::empty());
            }
            bound = right_bound + 1;
            i = i + 1;
        }
        proof {
            if bound <= range_end {
                assert(entries::gap_before(e, s, l, hi as int) =~= seq![(bound, range_end)]);
            } else {
                assert(entries::gap_before(e, s, l, hi as int) =~= Seq::<(u64, u64)>::empty());
            }
            entries::lemma_no_gaps_above(e, s, l, hi as nat, e.len() + 1);
        }
        if bound <= range_end {
            ranges.push(RangeInclusive::new(bound, range_end));
        }
        ranges
    }

    /// Find the ranges that are uncovered for the specified range together with what the
    /// [`SparseRange`] would look like if we covered that range.
    pub fn cover(&self, range: Range<u64>) -> (r: Option<(SparseRange, Vec<RangeInclusive<u64>>)>)
        requires
            self.wf(),
            range.start <= range.end,
            1 <= range.end,
        ensures
            r is None <==> entries::gaps(self.entries(), range.start as int, range.end - 1).len() == 0,
            r is None <==> forall|x: int|
                range.start <= x < range.end ==> #[trigger] self@.contains(x),
            r matches Some((new, missing)) ==> {
                &&& new.wf()
                &&& new.entries() == entries::with_cover(
                    self.entries(),
                    range.start,
                    (range.end - 1) as u64,
                )
                &&& entries::lists(missing@, entries::gaps(self.entries(), range.start as int, range.end - 1))
                &&& forall|x: int| #[trigger]
                    new@.contains(x) <==> self@.contains(x) || range.start <= x < range.end
            },
    {
        let range_start: u64 = range.start;
        let range_end: u64 = range.end - 1;
        let ghost e = self.entries();
        let (lo, hi) = self.touched(range_start, range_end + 1);
        let ranges = self.missing(range_start, range_end, lo, hi);
        proof {
            entries::lemma_gaps_empty(e, range_start as int, range_end as int);
            assert forall|x: int| #[trigger] entries::holds(e, x) <==> self@.contains(x) by {}
        }
        if ranges.len() == 0 {
            None
        } else {
            // The bounds of the entry that replaces those that the range touches.
            let start: u64 = if lo < hi && self.left[lo] < range_start {
                self.left[lo]
            } else {
                range_start
            };
            let end: u64 = if lo < hi && self.right[hi - 1] > range_end {
                self.right[hi - 1]
            } else {
                range_end
            };
            let new = SparseRange {
                left: spliced(&self.left, lo, hi, &vec![start]),
                right: spliced(&self.right, lo, hi, &vec![end]),
            };
            proof {
                entries::lemma_with_cover(e, range_start, range_end);
                assert(new.entries() =~= entries::with_cover(e, range_start, range_end));
            }
            Some((new, ranges))
        }
    }

    /// Whether the whole of the specified range is covered.
    pub fn is_covered(&self, range: Range<u64>) -> (r: bool)
        requires
            self.wf(),
            range.start <= range.end,
            1 <= range.end,
        ensures
            r <==> self.covers(range),
            r <==> forall|x: int| range.start <= x < range.end ==> #[trigger] self@.contains(x),
    {
        let range_start: u64 = range.start;
        let range_end: u64 = range.end - 1;
        let ghost e = self.entries();
        let (lo, hi) = self.touched(range_start, range_end + 1);
        let mut bound: u64 = range_start;
        let mut i: usize = lo;
        while i < hi
            invariant
                self.wf(),
                e == self.entries(),
                lo <= i <= hi <= e.len(),
                range_start == range.start,
                range_end == range.end - 1,
                range_start <= range_end + 1,
                forall|k: int| 0 <= k < lo ==> (#[trigger] e[k]).1 < range_start,
                forall|k: int| lo <= k < e.len() ==> (#[trigger] e[k]).1 >= range_start,
                forall|k: int| 0 <= k < hi ==> (#[trigger] e[k]).0 <= range_end + 1,
                i == lo ==> bound == range_start,
                i > lo ==> bound == e[i - 1].1 + 1,
                forall|x: int| range_start <= x < bound ==> #[trigger] self@.contains(x),
            decreases hi - i,
        {
            let left_bound: u64 = self.left[i];
            let right_bound: u64 = self.right[i];
            assert(e[i as int] == (left_bound, right_bound));
            if left_bound > bound {
                proof {
                    self.lemma_between(i as int, bound as int);
                    assert(!self@.contains(bound as int));
                }
                return false;
            }
            proof {
                assert forall|x: int| range_start <= x < right_bound + 1 implies #[trigger] self@.contains(x) by {
                    if x >= bound {
                        assert(e[i as int].0 <= x <= e[i as int].1);
                        assert(entries::holds(e, x));
                    }
                }
            }
            bound = right_bound + 1;
            i = i + 1;
        }
        proof {
            if bound <= range_end {
                self.lemma_between(hi as int, bound as int);
                assert(!self@.contains(bound as int));
            }
        }
        bound > range_end
    }

    /// A value behind the entries before `i` and ahead of the others is not covered.
    proof fn lemma_between(&self, i: int, x: int)
        requires
            self.wf(),
            0 <= i <= self.entries().len(),
            i > 0 ==> self.entries()[i - 1].1 < x,
            i < self.entries().len() ==> x < self.entries()[i].0,
        ensures
            !self@.contains(x),
    {
        let e = self.entries();
        assert forall|k: int| 0 <= k < e.len() implies !((#[trigger] e[k]).0 <= x <= e[k].1) by {
            if k < i - 1 {
                assert(e[k].1 < e[i - 1].0);
                assert(e[i - 1].0 <= e[i - 1].1 + 1);
            } else if k > i {
                assert(e[i].1 < e[k].0);
                assert(e[i].0 <= e[i].1 + 1);
            }
        }
    }

    /// Updates the current range to also cover the specified range.
    pub fn update(&mut self, range: Range<u64>)
        requires
            old(self).wf(),
            range.start <= range.end,
            1 <= range.end,
        ensures
            final(self).wf(),
            final(self).entries() == entries::updated(old(self).entries(), range),
            forall|x: int| #[trigger]
                final(self)@.contains(x) <==> old(self)@.contains(x) || range.start <= x
                    < range.end,
    {
        if let Some((new_range, _)) = self.cover(range) {
            *self = new_range;
        }
    }

    /// How many values are covered.
    pub fn len(&self) -> (r: u64)
        requires
            self.wf(),
        ensures
            self@.finite(),
            r == self@.len(),
    {
        let ghost e = self.entries();
        let mut sum: u64 = 0;
        for i in 0..self.left.len()
            invariant
                self.wf(),
                e == self.entries(),
                sum == entries::total(e.take(i as int)),
        {
            let left: u64 = self.left[i];
            let right: u64 = self.right[i];
            proof {
                let next = e.take(i + 1);
                assert(next.drop_last() =~= e.take(i as int));
                assert(next.last() == (left, right));
                assert(e[i as int].0 <= e[i as int].1 + 1);
                assert(entries::ordered(next)) by {
                    assert forall|k: int| 0 <= k < next.len() implies next[k] == e[k] by {}
                }
                entries::lemma_total(next);
            }
            sum = sum + (right + 1 - left);
        }
        proof {
            assert(e.take(e.len() as int) =~= e);
            entries::lemma_total(e);
            assert(self@ =~= Set::new(|x: int| entries::holds(e, x)));
        }
        sum
    }

    /// Removes the specified range from the current range.
    pub fn remove(&mut self, range: Range<u64>)
        requires
            old(self).wf(),
            range.start <= range.end,
            1 <= range.end,
            range.start == range.end ==> !old(self).entries().contains(
                (range.start, (range.start - 1) as u64),
            ),
        ensures
            final(self).wf(),
            final(self).entries() == entries::without(
                old(self).entries(),
                range.start,
                (range.end - 1) as u64,
            ),
            forall|x: int| #[trigger]
                final(self)@.contains(x) <==> old(self)@.contains(x) && !(range.start <= x
                    < range.end),
    {
        proof {
            let (start, last) = (range.start, (range.end - 1) as u64);
            entries::lemma_without(self.entries(), start, last);
            if entries::within(self.entries(), start, last).len() == 0 {
                entries::lemma_untouched(self.entries(), start, last);
            }
        }
        if let Some((new_range, _)) = self.uncover(range) {
            *self = new_range;
        }
    }

    /// Uncovers everything but the specified range: gives what the [`SparseRange`] would look
    /// like, and the ranges that it would no longer cover. An empty range, or one that runs
    /// backward, keeps nothing.
    pub fn uncover_except(&self, range: Range<u64>) -> (r: Option<
        (SparseRange, Vec<RangeInclusive<u64>>),
    >)
        requires
            self.wf(),
            1 <= range.end,
        ensures
            r is None <==> entries::freed(self.entries(), range.start, (range.end - 1) as u64).len() == 0,
            r matches Some((new, uncovered)) ==> {
                &&& new.entries() == entries::kept(self.entries(), range.start, (range.end - 1) as u64)
                &&& entries::lists(
                    uncovered@,
                    entries::freed(self.entries(), range.start, (range.end - 1) as u64),
                )
                &&& new.wf()
                &&& forall|x: int| #[trigger]
                    new@.contains(x) <==> self@.contains(x) && range.start <= x < range.end
            },
    {
        let range_start: u64 = range.start;
        let range_end: u64 = range.end - 1;
        let ghost e = self.entries();
        let (lo, hi) = self.touched(range_start, range_end + 1);
        let mut new_left: Vec<u64> = Vec::new();
        let mut new_right: Vec<u64> = Vec::new();
        let mut ranges: Vec<RangeInclusive<u64>> = Vec::new();
        for i in 0..self.left.len()
            invariant
                self.wf(),
                e == self.entries(),
                range_end < u64::MAX,
                forall|k: int|
                    0 <= k < e.len() ==> (lo <= k < hi <==> entries::reaches(
                        #[trigger] e[k],
                        range_start as int,
                        range_end + 1,
                    )),
                new_left@.len() == new_right@.len(),
                pairs(new_left@, new_right@) == entries::kept(e.take(i as int), range_start, range_end),
                entries::lists(ranges@, entries::freed(e.take(i as int), range_start, range_end)),
        {
            let l: u64 = self.left[i];
            let r: u64 = self.right[i];
            let ghost kept_before = pairs(new_left@, new_right@);
            proof {
                let next = e.take(i + 1);
                assert(next.drop_last() =~= e.take(i as int));
                assert(next.last() == (l, r));
                assert(e[i as int] == (l, r));
            }
            if range_start > range_end + 1 || i < lo || i >= hi {
                ranges.push(RangeInclusive::new(l, r));
                assert(pairs(new_left@, new_right@) =~= entries::kept(e.take(i + 1), range_start, range_end));
            } else {
                if l < range_start {
                    ranges.push(RangeInclusive::new(l, range_start - 1));
                }
                if r > range_end {
                    ranges.push(RangeInclusive::new(range_end + 1, r));
                }
                let left: u64 = if l < range_start { range_start } else { l };
                let right: u64 = if r > range_end { range_end } else { r };
                // Where nothing of the entry lies in the range, none is left.
                if left <= right || (left == l && right == r) {
                    new_left.push(left);
                    new_right.push(right);
                    assert(pairs(new_left@, new_right@) =~= kept_before + seq![(left, right)]);
                } else {
                    assert(pairs(new_left@, new_right@) =~= kept_before + Seq::<(u64, u64)>::empty());
                }
            }
        }
        proof {
            assert(e.take(e.len() as int) =~= e);
        }
        if ranges.len() == 0 {
            None
        } else {
            let new = SparseRange { left: new_left, right: new_right };
            proof {
                assert(new.entries() =~= pairs(new_left@, new_right@));
                entries::lemma_kept(e, range_start, range_end);
            }
            Some((new, ranges))
        }
    }

    /// Find the ranges that are covered for the specified range together with what the
    /// [`SparseRange`] would look like if we uncovered that range.
    pub fn uncover(&self, range: Range<u64>) -> (r: Option<
        (SparseRange, Vec<RangeInclusive<u64>>),
    >)
        requires
            self.wf(),
            range.start <= range.end,
            1 <= range.end,
            range.start == range.end ==> !self.entries().contains(
                (range.start, (range.start - 1) as u64),
            ),
        ensures
            r is None <==> entries::within(self.entries(), range.start, (range.end - 1) as u64).len() == 0,
            r matches Some((new, uncovered)) ==> {
                &&& new.wf()
                &&& new.entries() == entries::without(self.entries(), range.start, (range.end - 1) as u64)
                &&& entries::lists(
                    uncovered@,
                    entries::within(self.entries(), range.start, (range.end - 1) as u64),
                )
                &&& forall|x: int| #[trigger]
                    new@.contains(x) <==> self@.contains(x) && !(range.start <= x < range.end)
            },
    {
        let range_start: u64 = range.start;
        let range_end: u64 = range.end - 1;
        let ghost e = self.entries();
        let (lo, hi) = self.touched(range_start, range_end);
        let mut new_left: Vec<u64> = Vec::new();
        let mut new_right: Vec<u64> = Vec::new();
        let mut ranges: Vec<RangeInclusive<u64>> = Vec::new();
        for i in 0..self.left.len()
            invariant
                self.wf(),
                e == self.entries(),
                range_end < u64::MAX,
                forall|k: int|
                    0 <= k < e.len() ==> (lo <= k < hi <==> entries::reaches(
                        #[trigger] e[k],
                        range_start as int,
                        range_end as int,
                    )),
                new_left@.len() == new_right@.len(),
                pairs(new_left@, new_right@) == entries::without(e.take(i as int), range_start, range_end),
                entries::lists(ranges@, entries::within(e.take(i as int), range_start, range_end)),
        {
            let l: u64 = self.left[i];
            let r: u64 = self.right[i];
            let ghost before = pairs(new_left@, new_right@);
            proof {
                let next = e.take(i + 1);
                assert(next.drop_last() =~= e.take(i as int));
                assert(next.last() == (l, r));
                assert(e[i as int] == (l, r));
            }
            if i < lo || i >= hi {
                new_left.push(l);
                new_right.push(r);
                assert(pairs(new_left@, new_right@) =~= before + seq![(l, r)]);
            } else {
                if range_start > l {
                    new_left.push(l);
                    new_right.push(range_start - 1);
                }
                if range_end < r {
                    new_left.push(range_end + 1);
                    new_right.push(r);
                }
                assert(pairs(new_left@, new_right@) =~= before + entries::trimmed(
                    (l, r),
                    range_start,
                    range_end,
                ));
                ranges.push(
                    RangeInclusive::new(
                        if l < range_start { range_start } else { l },
                        if r > range_end { range_end } else { r },
                    ),
                );
            }
        }
        proof {
            assert(e.take(e.len() as int) =~= e);
        }
        if ranges.len() == 0 {
            None
        } else {
            let new = SparseRange { left: new_left, right: new_right };
            proof {
                assert(new.entries() =~= pairs(new_left@, new_right@));
                entries::lemma_without(e, range_start, range_end);
            }
            Some((new, ranges))
        }
    }

    /// The ranges that are covered, first those with the lowest values.
    pub fn covered_ranges(&self) -> (r: Vec<Range<u64>>)
        requires
            self.wf(),
        ensures
            r@.len() == self.entries().len(),
            forall|i: int|
                0 <= i < r@.len() ==> (#[trigger] r@[i]).start == self.entries()[i].0 && r@[i].end
                    == self.entries()[i].1 + 1,
    {
        let mut ranges: Vec<Range<u64>> = Vec::new();
        for i in 0..self.left.len()
            invariant
                self.wf(),
                ranges@.len() == i,
                forall|k: int|
                    0 <= k < i ==> (#[trigger] ranges@[k]).start == self.entries()[k].0
                        && ranges@[k].end == self.entries()[k].1 + 1,
        {
            assert(self.entries()[i as int].1 < u64::MAX);
            ranges.push(self.left[i]..self.right[i] + 1);
        }
        ranges
    }

    /// The ranges that are covered, as inclusive ranges.
    pub fn covered_iranges(&self) -> (r: Vec<RangeInclusive<u64>>)
        requires
            self.wf(),
        ensures
            entries::lists(r@, self.entries()),
    {
        let mut ranges: Vec<RangeInclusive<u64>> = Vec::new();
        for i in 0..self.left.len()
            invariant
                self.wf(),
                entries::lists(ranges@, self.entries().take(i as int)),
        {
            ranges.push(RangeInclusive::new(self.left[i], self.right[i]));
        }
        proof {
            assert(self.entries().take(self.entries().len() as int) =~= self.entries());
        }
        ranges
    }

    /// Covers the ranges one after the other.
    pub fn from_ranges(ranges: Vec<Range<u64>>) -> (r: Self)
        requires
            entries::forward(ranges@),
        ensures
            r.wf(),
            ranges@.len() == 0 ==> r.entries() == Seq::<(u64, u64)>::empty(),
            ranges@.len() > 0 ==> r.entries() == entries::with_all(
                seq![(ranges@[0].start, (ranges@[0].end - 1) as u64)],
                ranges@.skip(1),
            ),
            forall|x: int| #[trigger] r@.contains(x) <==> entries::in_ranges(ranges@, x),
    {
        if ranges.len() == 0 {
            return SparseRange::default();
        }
        let mut srange = SparseRange::from_range(ranges[0].start..ranges[0].end);
        let ghost first = srange.entries();
        srange.update_from(&ranges, 1);
        proof {
            let rest = ranges@.skip(1);
            assert forall|i: int| 0 <= i < rest.len() implies rest[i] == ranges@[i + 1] by {}
            entries::law_cover_adds_all_ranges(first, rest);
            assert forall|x: int| #[trigger] srange@.contains(x) <==> entries::in_ranges(
                ranges@,
                x,
            ) by {
                entries::lemma_holds_one(first[0], x);
                assert(first =~= seq![first[0]]);
                if entries::in_ranges(rest, x) {
                    let i = choose|i: int|
                        0 <= i < rest.len() && (#[trigger] rest[i]).start <= x < rest[i].end;
                    assert(ranges@[i + 1].start <= x < ranges@[i + 1].end);
                }
                if entries::in_ranges(ranges@, x) {
                    let i = choose|i: int|
                        0 <= i < ranges@.len() && (#[trigger] ranges@[i]).start <= x < ranges@[i].end;
                    if i > 0 {
                        assert(rest[i - 1].start <= x < rest[i - 1].end);
                    }
                }
            }
        }
        srange
    }

    /// Updates the current range to also cover the ranges from index `first` on, one after the
    /// other.
    pub(crate) fn update_from(&mut self, ranges: &Vec<Range<u64>>, first: usize)
        requires
            old(self).wf(),
            entries::forward(ranges@),
            first <= ranges@.len(),
        ensures
            final(self).wf(),
            final(self).entries() == entries::with_all(
                old(self).entries(),
                ranges@.skip(first as int),
            ),
    {
        let ghost e = self.entries();
        let ghost rest = ranges@.skip(first as int);
        for i in first..ranges.len()
            invariant
                entries::forward(ranges@),
                first <= ranges@.len(),
                rest == ranges@.skip(first as int),
                self.wf(),
                self.entries() == entries::with_all(e, rest.take(i - first)),
        {
            self.update(ranges[i].start..ranges[i].end);
            proof {
                let next = rest.take(i + 1 - first);
                assert(next.drop_last() =~= rest.take(i - first));
                assert(next.last() == ranges@[i as int]);
            }
        }
        proof {
            assert(rest.take(rest.len() as int) =~= rest);
        }
    }

    /// Removes the ranges from the current range.
    pub(crate) fn remove_all(&mut self, gone: &Vec<RangeInclusive<u64>>, Ghost(g): Ghost<
        Seq<(u64, u64)>,
    >)
        requires
            old(self).wf(),
            entries::lists(gone@, g),
            entries::ordered(g),
            entries::inhabited(g),
        ensures
            final(self).wf(),
            final(self).entries() == entries::without_all(old(self).entries(), g),
    {
        let ghost e = self.entries();
        for i in 0..gone.len()
            invariant
                entries::lists(gone@, g),
                entries::ordered(g),
                entries::inhabited(g),
                self.wf(),
                self.entries() == entries::without_all(e, g.take(i as int)),
        {
            let start: u64 = *gone[i].start();
            let end: u64 = *gone[i].end();
            assert(g[i as int] == (start, end));
            self.remove(start..end + 1);
            proof {
                let next = g.take(i + 1);
                assert(next.drop_last() =~= g.take(i as int));
                assert(next.last() == (start, end));
            }
        }
        proof {
            assert(g.take(g.len() as int) =~= g);
        }
    }
}

/// The text of one entry: its first and its last value.
pub open spec fn entry_text(entry: (u64, u64)) -> Seq<char> {
    decimal::decimal(entry.0 as nat) + "..="@ + decimal::decimal(entry.1 as nat)
}

/// The texts of the entries, set apart by commas.
pub open spec fn entries_text(entries: Seq<(u64, u64)>) -> Seq<char>
    decreases entries.len(),
{
    if entries.len() == 0 {
        seq![]
    } else if entries.len() == 1 {
        entry_text(entries[0])
    } else {
        entries_text(entries.drop_last()) + ", "@ + entry_text(entries.last())
    }
}

impl SparseRange {
    /// The covered ranges as a text, such as `0..=4, 7..=9`.
    pub fn to_string(&self) -> (text: String)
        requires
            self.wf(),
        ensures
            text@ == entries_text(self.entries()),
    {
        let ghost e = self.entries();
        let mut text = String::new();
        proof {
            assert(text@ =~= entries_text(e.take(0)));
        }
        for i in 0..self.left.len()
            invariant
                self.wf(),
                e == self.entries(),
                text@ == entries_text(e.take(i as int)),
        {
            let ghost before = text@;
            if i > 0 {
                text.append(", ");
            }
            decimal::push_decimal(&mut text, self.left[i]);
            text.append("..=");
            decimal::push_decimal(&mut text, self.right[i]);
            proof {
                let next = e.take(i + 1);
                assert(next.drop_last() =~= e.take(i as int));
                assert(next.last() == (self.left@[i as int], self.right@[i as int]));
                if i == 0 {
                    assert(text@ =~= entry_text(next[0]));
                } else {
                    assert(text@ =~= before + ", "@ + entry_text(next.last()));
                }
            }
        }
        proof {
            assert(e.take(e.len() as int) =~= e);
        }
        text
    }
}

/// The pairs of two lists of equal length.
spec fn pairs(a: Seq<u64>, b: Seq<u64>) -> Seq<(u64, u64)> {
    Seq::new(a.len(), |i: int| (a[i], b[i]))
}

/// The text of a list is that of its parts, with a comma and a space between them, and the text of
/// an entry has its first and its last value, with `..=` between them.
pub proof fn law_texts_join(a: Seq<(u64, u64)>, b: Seq<(u64, u64)>, entry: (u64, u64))
    ensures
        entries_text(seq![]) == Seq::<char>::empty(),
        entries_text(seq![entry]) == decimal::decimal(entry.0 as nat) + seq!['.', '.', '=']
            + decimal::decimal(entry.1 as nat),
        a.len() > 0 && b.len() > 0 ==> entries_text(a + b) == entries_text(a) + seq![',', ' ']
            + entries_text(b),
    decreases b.len(),
{
    reveal_strlit("..=");
    reveal_strlit(", ");
    assert("..="@ =~= seq!['.', '.', '=']);
    assert(", "@ =~= seq![',', ' ']);
    if a.len() > 0 && b.len() > 0 {
        let c = a + b;
        assert(c.last() == b.last());
        assert(c.drop_last() =~= a + b.drop_last());
        if b.len() == 1 {
            assert(c.drop_last() =~= a);
            assert(b[0] == b.last());
        } else {
            law_texts_join(a, b.drop_last(), entry);
        }
        assert(entries_text(c) =~= entries_text(a) + seq![',', ' '] + entries_text(b));
    }
}

impl SparseRange {
    /// A value is covered exactly if it lies in an entry, and so is a range if its values are.
    pub proof fn law_values_lie_in_entries(&self, range: Range<u64>, x: int)
        ensures
            self@.contains(x) <==> exists|i: int|
                0 <= i < self.entries().len() && (#[trigger] self.entries()[i]).0 <= x
                    <= self.entries()[i].1,
            self.covers(range) <==> forall|y: int|
                range.start <= y < range.end ==> #[trigger] self@.contains(y),
    {
    }
}

impl Default for SparseRange {
    /// Covers nothing.
    fn default() -> (r: Self)
        ensures
            r.wf(),
            r.entries() == Seq::<(u64, u64)>::empty(),
            r@ == Set::<int>::empty(),
    {
        let r = SparseRange { left: Vec::new(), right: Vec::new() };
        proof {
            assert(r.entries() =~= Seq::<(u64, u64)>::empty());
            assert(r@ =~= Set::<int>::empty());
        }
        r
    }
}

impl Clone for SparseRange {
    fn clone(&self) -> (r: Self)
        ensures
            r.entries() == self.entries(),
            r@ == self@,
            self.wf() ==> r.wf(),
    {
        let r = SparseRange { left: self.left.clone(), right: self.right.clone() };
        proof {
            assert(r.left@ =~= self.left@);
            assert(r.right@ =~= self.right@);
            assert(r.entries() =~= self.entries());
        }
        r
    }
}

} // verus!
