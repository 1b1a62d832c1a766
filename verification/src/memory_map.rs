//! A sparse memory map.

use std::collections::BTreeMap;
use std::ops::{Range, RangeInclusive};

use bytes::Bytes;
use vstd::prelude::*;

use crate::bounds::OffsetBounds;
use crate::buffer::{self, bytes_as_ref, bytes_len, bytes_slice};
use crate::chunks;
use crate::entries;
use crate::pieces::{keys_between, last_key_by, piece_at, put_piece, take_piece};
use crate::sparse_range::SparseRange;
use crate::sweep;
use crate::walk;

verus! {

/// A sparse memory map.
#[derive(Debug)]
pub struct MemoryMap {
    /// What the map holds.
    pub inner: Inner,
    /// The size of the map.
    pub len: u64,
}

/// What a [`MemoryMap`] holds.
#[derive(Debug)]
pub struct Inner {
    /// The bytes, in pieces.
    pub data: BTreeMap<u64, Bytes>,
    /// How many bytes are held.
    pub data_len: u64,
    /// The offsets of the bytes that are held.
    pub record: SparseRange,
}

impl View for MemoryMap {
    type V = Map<int, u8>;

    /// The bytes that are held, by their offset.
    open spec fn view(&self) -> Map<int, u8> {
        self.inner@
    }
}

impl View for Inner {
    type V = Map<int, u8>;

    /// The bytes that are held, by their offset.
    open spec fn view(&self) -> Map<int, u8> {
        chunks::stored(chunks::chunks(self.data@))
    }
}

/// The part of `bytes` that fits into a map of size `len` at `offset`.
pub open spec fn fitting(bytes: Seq<u8>, offset: int, len: int) -> Seq<u8> {
    if bytes.len() <= len - offset {
        bytes
    } else {
        bytes.take(len - offset)
    }
}

/// Where the range that is kept begins.
pub open spec fn zone_start(initial_pos: u64, back_limit: u64) -> u64 {
    if initial_pos >= back_limit {
        (initial_pos - back_limit) as u64
    } else {
        0
    }
}

impl MemoryMap {
    /// The invariant.
    pub open spec fn wf(&self) -> bool {
        &&& self.inner.wf()
        &&& forall|x: int| #[trigger] self@.contains_key(x) ==> 0 <= x < self.len
    }

    /// Create a new memory map.
    pub fn new(len: u64) -> (r: Self)
        ensures
            r.wf(),
            r.len == len,
            r@ == Map::<int, u8>::empty(),
            r.inner.data_len == 0,
            r.inner.record.entries() == Seq::<(u64, u64)>::empty(),
    {
        let r = MemoryMap {
            inner: Inner { data: BTreeMap::new(), data_len: 0, record: SparseRange::default() },
            len,
        };
        proof {
            assert(r@ =~= Map::<int, u8>::empty());
            assert(r@.dom() =~= Set::<int>::empty());
        }
        r
    }

    /// Get the size of the memory map.
    pub fn len(&self) -> (r: u64)
        ensures
            r == self.len,
    {
        self.len
    }

    /// The part of `bytes` that fits into the map at `offset`.
    fn fit(&self, offset: u64, bytes: &Bytes) -> (r: Bytes)
        requires
            offset <= self.len,
        ensures
            buffer::content(r) == fitting(
                buffer::content(*bytes),
                offset as int,
                self.len as int,
            ),
    {
        let n: usize = bytes_len(bytes);
        let room: u64 = self.len - offset;
        let take: usize = if n as u64 <= room {
            n
        } else {
            room as usize
        };
        bytes_slice(bytes, 0, take)
    }

    /// Whether bytes can be stored at an offset: not if they would end at the begin of the file.
    pub fn takes(&self, offset: u64, bytes: &Bytes) -> (r: bool)
        ensures
            r == (offset <= self.len ==> 1 <= offset + fitting(
                buffer::content(*bytes),
                offset as int,
                self.len as int,
            ).len()),
    {
        offset > 0 || (self.len > 0 && bytes_len(bytes) > 0)
    }

    /// Store data and free memory that is not within the range
    /// `(initial_pos - back_limit, offset + bytes.len())`.
    ///
    /// An empty range, or one that runs backward, keeps nothing.
    pub fn store_and_free(&mut self, offset: u64, bytes: Bytes, initial_pos: u64, back_limit: u64)
        requires
            old(self).wf(),
            offset <= old(self).len ==> 1 <= offset + fitting(
                buffer::content(bytes),
                offset as int,
                old(self).len as int,
            ).len(),
        ensures
            final(self).wf(),
            final(self).len == old(self).len,
            offset <= old(self).len ==> forall|x: int| #[trigger]
                final(self)@.contains_key(x) <==> {
                    &&& old(self)@.contains_key(x) || offset <= x && x < old(self).len
                    &&& initial_pos <= x + back_limit
                    &&& x < offset + buffer::content(bytes).len()
                },
            forall|x: int| #[trigger]
                final(self)@.contains_key(x) && old(self)@.contains_key(x) ==> final(self)@[x]
                    == old(self)@[x],
            forall|x: int| #[trigger]
                final(self)@.contains_key(x) && !old(self)@.contains_key(x) ==> final(self)@[x]
                    == buffer::content(bytes)[x - offset],
            offset > old(self).len ==> *final(self) == *old(self),
            offset <= old(self).len ==> {
                let new = fitting(buffer::content(bytes), offset as int, old(self).len as int);
                let end = (offset + new.len()) as u64;
                let zone = (zone_start(initial_pos, back_limit)..end);
                &&& final(self)@ == chunks::between(
                    chunks::placed(old(self)@, offset as int, new),
                    zone.start as int,
                    zone.end as int,
                )
                &&& final(self).inner.record.entries() == entries::confined(
                    entries::updated(old(self).inner.record.entries(), (offset..end)),
                    zone,
                )
            },
    {
        let _ = self.store_and_list_freed(offset, bytes, initial_pos, back_limit);
    }

    /// Does what [`MemoryMap::store_and_free`] does, and gives the ranges that it frees.
    pub(crate) fn store_and_list_freed(
        &mut self,
        offset: u64,
        bytes: Bytes,
        initial_pos: u64,
        back_limit: u64,
    ) -> (freed: Vec<RangeInclusive<u64>>)
        requires
            old(self).wf(),
            offset <= old(self).len ==> 1 <= offset + fitting(
                buffer::content(bytes),
                offset as int,
                old(self).len as int,
            ).len(),
        ensures
            final(self).wf(),
            final(self).len == old(self).len,
            offset <= old(self).len ==> forall|x: int| #[trigger]
                final(self)@.contains_key(x) <==> {
                    &&& old(self)@.contains_key(x) || offset <= x && x < old(self).len
                    &&& initial_pos <= x + back_limit
                    &&& x < offset + buffer::content(bytes).len()
                },
            forall|x: int| #[trigger]
                final(self)@.contains_key(x) && old(self)@.contains_key(x) ==> final(self)@[x]
                    == old(self)@[x],
            forall|x: int| #[trigger]
                final(self)@.contains_key(x) && !old(self)@.contains_key(x) ==> final(self)@[x]
                    == buffer::content(bytes)[x - offset],
            offset > old(self).len ==> *final(self) == *old(self) && freed@.len() == 0,
            offset <= old(self).len ==> {
                let new = fitting(buffer::content(bytes), offset as int, old(self).len as int);
                let end = (offset + new.len()) as u64;
                let zone = (zone_start(initial_pos, back_limit)..end);
                let record = entries::updated(old(self).inner.record.entries(), (offset..end));
                &&& final(self)@ == chunks::between(
                    chunks::placed(old(self)@, offset as int, new),
                    zone.start as int,
                    zone.end as int,
                )
                &&& final(self).inner.record.entries() == entries::confined(record, zone)
                &&& entries::lists(
                    freed@,
                    entries::freed(record, zone.start, (zone.end - 1) as u64),
                )
            },
    {
        if offset > self.len {
            return Vec::new();
        }
        let bytes = self.fit(offset, &bytes);
        let end: u64 = offset + bytes_len(&bytes) as u64;
        self.inner.add(offset, &bytes);
        self.inner.free_except(initial_pos.saturating_sub(back_limit)..end)
    }

    /// Store data in the memory map, update the record.
    ///
    /// Bytes that are held already stay, and those behind the end of the map are left out.
    pub fn store(&mut self, offset: u64, bytes: Bytes)
        requires
            old(self).wf(),
            offset <= old(self).len ==> 1 <= offset + fitting(
                buffer::content(bytes),
                offset as int,
                old(self).len as int,
            ).len(),
        ensures
            final(self).wf(),
            final(self).len == old(self).len,
            forall|x: int| #[trigger]
                final(self)@.contains_key(x) <==> old(self)@.contains_key(x) || offset <= x < offset
                    + buffer::content(bytes).len() && x < old(self).len,
            forall|x: int| #[trigger]
                final(self)@.contains_key(x) && old(self)@.contains_key(x) ==> final(self)@[x]
                    == old(self)@[x],
            forall|x: int| #[trigger]
                final(self)@.contains_key(x) && !old(self)@.contains_key(x) ==> final(self)@[x]
                    == buffer::content(bytes)[x - offset],
            offset > old(self).len ==> *final(self) == *old(self),
            offset <= old(self).len ==> {
                let new = fitting(buffer::content(bytes), offset as int, old(self).len as int);
                let end = (offset + new.len()) as u64;
                &&& final(self)@ == chunks::placed(old(self)@, offset as int, new)
                &&& final(self).inner.record.entries() == entries::updated(
                    old(self).inner.record.entries(),
                    (offset..end),
                )
            },
    {
        if offset > self.len {
            return;
        }
        let ghost before = self@;
        let bytes = self.fit(offset, &bytes);
        self.inner.add(offset, &bytes);
        proof {
            assert forall|x: int| #[trigger] self@.contains_key(x) implies 0 <= x < self.len by {
                assert(before.contains_key(x) || offset <= x < offset + buffer::content(
                    bytes,
                ).len());
            }
        }
    }
}

impl MemoryMap {
    /// Get data from the memory map.
    ///
    /// An empty range gives no bytes, but only where a byte is held at its offset or before it.
    pub fn get<B: OffsetBounds>(&self, bounds: B) -> (r: Option<Vec<u8>>)
        requires
            self.wf(),
            bounds.bounded(),
            bounds.first() == 0 ==> bounds.past() != 0,
        ensures
            r is Some <==> {
                &&& bounds.first() <= bounds.past() <= self.len
                &&& chunks::holds_all(self@, bounds.first() as int, bounds.past())
                &&& bounds.first() == bounds.past() ==> exists|x: int| #[trigger]
                    self@.contains_key(x) && x <= bounds.first()
            },
            r matches Some(bytes) ==> bytes@ == chunks::run(
                self@,
                bounds.first() as int,
                bounds.past(),
            ),
            r matches Some(bytes) ==> {
                &&& bytes@.len() == bounds.past() - bounds.first()
                &&& forall|x: int|
                    bounds.first() <= x < bounds.past() ==> #[trigger] self@.contains_key(x)
                        && bytes@[x - bounds.first()] == self@[x]
            },
    {
        let (start, end) = bounds.start_and_end();
        if start > end || start > self.len {
            return None;
        }
        let expected_len: u64 = end - start;
        proof {
            walk::lemma_enough(self@, start as int, end as int);
        }
        if end > self.len || self.inner.data_len < expected_len {
            return None;
        }
        if !self.inner.record.is_covered(start..end) {
            proof {
                let x = choose|x: int| start <= x < end && !#[trigger] self.inner.record@.contains(x);
                assert(!self@.contains_key(x));
            }
            return None;
        }
        let ghost m = self@;
        let ghost c = chunks::chunks(self.inner.data@);
        proof {
            assert forall|x: int| start <= x < end implies #[trigger] m.contains_key(x) by {
                assert(self.inner.record@.contains(x));
            }
        }
        let first: u64 = match last_key_by(&self.inner.data, start) {
            Some(key) => key,
            None => {
                proof {
                    walk::lemma_none_before(c, start);
                    assert(start < end ==> m.contains_key(start as int));
                }
                return None;
            },
        };
        assert(chunks::in_chunk(c, first, first as int)) by {
            assert(c.contains_key(first));
        }
        assert(m.contains_key(first as int));
        let keys = keys_between(&self.inner.data, first, end - 1);
        let mut bytes: Vec<u8> = Vec::new();
        let ghost mut reached: int = start as int;
        for i in 0..keys.len()
            invariant
                m == chunks::stored(c),
                c == chunks::chunks(self.inner.data@),
                chunks::disjoint_chunks(c),
                chunks::holds_all(m, start as int, end as int),
                start <= end,
                end >= 1,
                c.contains_key(first),
                first <= start,
                forall|k: u64| #[trigger] c.contains_key(k) && k <= start ==> k <= first,
                forall|k: int|
                    0 <= k < keys@.len() ==> c.contains_key(#[trigger] keys@[k]) && first
                        <= keys@[k] < end,
                forall|k: int, l: int| 0 <= k < l < keys@.len() ==> keys@[k] < keys@[l],
                forall|k: u64| #[trigger]
                    c.contains_key(k) && first <= k < end ==> keys@.contains(k),
                reached == walk::reach(c, keys@, i as int, start as int, end as int),
                start <= reached <= end,
                bytes@ == chunks::run(m, start as int, reached),
        {
            let key: u64 = keys[i];
            let piece = piece_at(&self.inner.data, key);
            let n: u64 = bytes_len(piece) as u64;
            assert(c.contains_key(key));
            let piece_end: u64 = key + n;
            let stop: u64 = if piece_end < end {
                piece_end
            } else {
                end
            };
            proof {
                walk::lemma_next_piece(c, keys@, i as int, first, start, end);
            }
            if piece_end >= start {
                let skip: u64 = if key < start {
                    start - key
                } else {
                    0
                };
                let part = bytes_slice(piece, skip as usize, (stop - key) as usize);
                let ghost was = bytes@;
                bytes.extend_from_slice(bytes_as_ref(&part));
                proof {
                    let goal = chunks::run(m, start as int, stop as int);
                    assert(was.len() == key + skip - start);
                    assert forall|j: int| 0 <= j < goal.len() implies bytes@[j] == goal[j] by {
                        if j >= was.len() {
                            let x = start + j;
                            assert(chunks::in_chunk(c, key, x));
                            chunks::lemma_stored_at(c, key, x);
                            assert(bytes@[j] == buffer::content(part)[j - was.len()]);
                        } else {
                            assert(bytes@[j] == was[j]);
                        }
                    }
                    assert(bytes@ =~= goal);
                }
            }
            proof {
                reached = walk::reach(c, keys@, i + 1, start as int, end as int);
            }
        }
        proof {
            walk::lemma_reached_end(c, keys@, first, start, end);
        }
        Some(bytes)
    }
}

impl Inner {
    /// Whether the pieces are disjoint and none is empty.
    pub open spec fn tidy(&self) -> bool {
        &&& chunks::disjoint_chunks(chunks::chunks(self.data@))
        &&& chunks::nonempty_chunks(chunks::chunks(self.data@))
    }

    /// The invariant: record and count agree with the bytes that are held.
    pub open spec fn wf(&self) -> bool {
        &&& self.tidy()
        &&& self.record.wf()
        &&& entries::inhabited(self.record.entries())
        &&& self.record@ == self@.dom()
        &&& self@.dom().finite()
        &&& self.data_len == self@.dom().len()
    }

    /// Puts bytes at `offset`, where those that are held already stay.
    fn add(&mut self, offset: u64, bytes: &Bytes)
        requires
            old(self).wf(),
            1 <= offset + buffer::content(*bytes).len() <= u64::MAX,
        ensures
            final(self).wf(),
            final(self)@ == chunks::placed(old(self)@, offset as int, buffer::content(*bytes)),
            final(self).record.entries() == entries::updated(
                old(self).record.entries(),
                (offset..(offset + buffer::content(*bytes).len()) as u64),
            ),
    {
        let n: u64 = bytes_len(bytes) as u64;
        let ghost new = buffer::content(*bytes);
        let ghost m = self@;
        let ghost e = self.record.entries();
        let ghost g = entries::gaps(e, offset as int, offset + n - 1);
        match self.record.cover(offset..offset + n) {
            Some((record, missing)) => {
                proof {
                    self.record.law_entries_are_ordered();
                    entries::law_entries_stay_inhabited(e, (offset..(offset + n) as u64));
                    entries::lemma_gaps_ordered(e, offset as int, offset + n - 1, e.len() + 1);
                    assert forall|x: int| #[trigger] entries::holds(g, x) <==> offset <= x < offset
                        + n && !m.contains_key(x) by {
                        entries::law_gaps_are_what_is_missing(e, offset as int, offset + n - 1, x);
                        assert(self.record@.contains(x) <==> m.dom().contains(x));
                    }
                    lemma_added_none(m, offset as int, new, g);
                }
                for i in 0..missing.len()
                    invariant
                        self.tidy(),
                        self@ == added(m, offset as int, new, g.take(i as int)),
                        self.data_len == self@.dom().len(),
                        n == new.len(),
                        n <= usize::MAX,
                        new == buffer::content(*bytes),
                        offset + n <= u64::MAX,
                        entries::lists(missing@, g),
                        entries::ordered(g),
                        entries::inhabited(g),
                        forall|k: int|
                            0 <= k < g.len() ==> offset <= (#[trigger] g[k]).0 && g[k].1 < offset
                                + n,
                        forall|x: int| #[trigger]
                            entries::holds(g, x) <==> offset <= x < offset + n && !m.contains_key(
                                x,
                            ),
                {
                    let start: u64 = *missing[i].start();
                    let end: u64 = *missing[i].end();
                    let ghost before = chunks::chunks(self.data@);
                    assert(g[i as int] == (start, end));
                    let piece = bytes_slice(
                        bytes,
                        (start - offset) as usize,
                        (end - offset + 1) as usize,
                    );
                    proof {
                        lemma_added_one(m, offset as int, new, g, i as int);
                        chunks::lemma_offsets(before);
                        assert forall|x: int| start <= x < start + buffer::content(
                            piece,
                        ).len() implies !#[trigger] chunks::stored(before).contains_key(x) by {
                            assert(!added(m, offset as int, new, g.take(i as int)).contains_key(x));
                        }
                        chunks::lemma_insert(before, start, buffer::content(piece));
                    }
                    put_piece(&mut self.data, start, piece);
                    proof {
                        let after = chunks::chunks(self.data@);
                        assert(after =~= before.insert(start, buffer::content(piece)));
                        chunks::lemma_offsets(after);
                        let goal = added(m, offset as int, new, g.take(i + 1));
                        assert forall|x: int| self@.contains_key(x) implies self@[x] == goal[x] by {
                            assert(goal.contains_key(x));
                        }
                        assert(self@ =~= goal);
                        let fresh = vstd::set_lib::set_int_range(start as int, end + 1);
                        vstd::set_lib::lemma_int_range(start as int, end + 1);
                        assert(self@.dom() =~= chunks::stored(before).dom() + fresh);
                        vstd::set_lib::lemma_set_disjoint_lens(
                            chunks::stored(before).dom(),
                            fresh,
                        );
                    }
                    self.data_len = self.data_len + (end - start + 1);
                }
                self.record = record;
                proof {
                    assert(g.take(g.len() as int) =~= g);
                    assert(self@ =~= chunks::placed(m, offset as int, new));
                    chunks::lemma_offsets(chunks::chunks(self.data@));
                    assert(self.record@ =~= self@.dom());
                }
            },
            None => {
                proof {
                    assert forall|x: int| offset <= x < offset + n implies m.contains_key(x) by {
                        assert(self.record@.contains(x));
                    }
                    assert(self@ =~= chunks::placed(m, offset as int, new));
                }
            },
        }
    }

    /// Frees all bytes that do not lie in `zone`, and gives the ranges that they held.
    fn free_except(&mut self, zone: Range<u64>) -> (freed: Vec<RangeInclusive<u64>>)
        requires
            old(self).wf(),
            1 <= zone.end,
        ensures
            final(self).wf(),
            final(self)@ == chunks::between(old(self)@, zone.start as int, zone.end as int),
            final(self).record.entries() == entries::confined(old(self).record.entries(), zone),
            entries::lists(
                freed@,
                entries::freed(old(self).record.entries(), zone.start, (zone.end - 1) as u64),
            ),
    {
        let ghost m = self@;
        let ghost e = self.record.entries();
        let ghost last = (zone.end - 1) as u64;
        let ghost f = entries::freed(e, zone.start, last);
        proof {
            self.record.law_entries_are_ordered();
            entries::lemma_kept(e, zone.start, last);
            assert forall|x: int| #[trigger] entries::holds(f, x) <==> m.contains_key(x) && !(
            zone.start <= x < zone.end) by {
                assert(self.record@.contains(x) <==> m.dom().contains(x));
            }
        }
        match self.record.uncover_except(zone.start..zone.end) {
            Some((record, uncovered)) => {
                proof {
                    lemma_left_all(m, f);
                }
                for i in 0..uncovered.len()
                    invariant
                        self.tidy(),
                        self@ == left(m, f.take(i as int)),
                        self.data_len == self@.dom().len(),
                        entries::lists(uncovered@, f),
                        entries::ordered(f),
                        entries::inhabited(f),
                        forall|x: int| #[trigger] entries::holds(f, x) ==> m.contains_key(x),
                {
                    let start: u64 = *uncovered[i].start();
                    let end: u64 = *uncovered[i].end();
                    let ghost before = chunks::chunks(self.data@);
                    proof {
                        assert(f[i as int] == (start, end));
                        lemma_left_one(m, f, i as int);
                        chunks::lemma_offsets(before);
                    }
                    proof {
                        assert forall|x: int| start <= x < end + 1 implies #[trigger] chunks::stored(
                            before,
                        ).contains_key(x) by {
                            assert(left(m, f.take(i as int)).contains_key(x));
                        }
                        chunks::lemma_without_held(before, start, (end + 1) as u64);
                    }
                    let count: u64 = remove_range(&mut self.data, start..end + 1);
                    self.data_len = self.data_len - count;
                    proof {
                        assert(self@ =~= left(m, f.take(i + 1)));
                    }
                }
                self.record = record;
                proof {
                    assert(f.take(f.len() as int) =~= f);
                    assert(self@ =~= chunks::between(m, zone.start as int, zone.end as int));
                    chunks::lemma_offsets(chunks::chunks(self.data@));
                    assert(self.record@ =~= self@.dom());
                }
                uncovered
            },
            None => {
                proof {
                    assert forall|x: int| m.contains_key(x) implies zone.start <= x < zone.end by {
                        assert(!entries::holds(f, x));
                    }
                    assert(self@ =~= chunks::between(m, zone.start as int, zone.end as int));
                }
                Vec::new()
            },
        }
    }
}

/// Takes the bytes at the specified offsets out of `data`, and gives how many there were.
pub fn remove_range<B: OffsetBounds>(data: &mut BTreeMap<u64, Bytes>, bounds: B) -> (removed: u64)
    requires
        bounds.bounded(),
        chunks::disjoint_chunks(chunks::chunks(old(data)@)),
    ensures
        bounds.first() > bounds.past() ==> removed == 0 && final(data)@ == old(data)@,
        bounds.first() <= bounds.past() ==> {
            &&& chunks::chunks(final(data)@) == chunks::without_range(
                chunks::chunks(old(data)@),
                bounds.first(),
                bounds.past() as u64,
            )
            &&& removed == chunks::stored_between(
                chunks::chunks(old(data)@),
                bounds.first() as int,
                bounds.past(),
            ).len()
        },
        bounds.first() < bounds.past() && chunks::nonempty_chunks(chunks::chunks(old(data)@))
            && stored_nowhere(
            chunks::chunks(old(data)@),
            bounds.first() as int,
            bounds.past(),
        ) ==> removed == 0 && final(data)@ == old(data)@,
        bounds.first() <= bounds.past() ==> {
            let before = chunks::stored(chunks::chunks(old(data)@));
            let after = chunks::stored(chunks::chunks(final(data)@));
            &&& forall|x: int| #[trigger]
                after.contains_key(x) <==> before.contains_key(x) && !(bounds.first() <= x
                    < bounds.past())
            &&& forall|x: int| #[trigger] after.contains_key(x) ==> after[x] == before[x]
            &&& after.dom().len() + removed == before.dom().len()
        },
{
    let (from, to) = bounds.start_and_end();
    if from > to {
        return 0;
    }
    let ghost c = chunks::chunks(data@);
    let mut removed: u64 = 0;
    let first: u64 = match last_key_by(data, from) {
        Some(key) => key,
        None => 0,
    };
    let keys = keys_between(data, first, to);
    let ghost mut bound: int = first as int;
    let ghost mut hit: bool = false;
    proof {
        sweep::lemma_sweep_none(c, from, to, first);
    }
    for i in 0..keys.len()
        invariant
            chunks::disjoint_chunks(c),
            from <= to,
            first <= to,
            first <= bound <= to + 1,
            bound == (if i == 0 { first as int } else { keys@[i - 1] + 1 }),
            forall|k: int|
                0 <= k < keys@.len() ==> c.contains_key(#[trigger] keys@[k]) && first <= keys@[k]
                    <= to,
            forall|k: int, l: int| 0 <= k < l < keys@.len() ==> keys@[k] < keys@[l],
            forall|k: u64| #[trigger] c.contains_key(k) && first <= k <= to ==> keys@.contains(k),
            forall|k: u64| #[trigger] c.contains_key(k) && k <= from ==> k <= first,
            chunks::chunks(data@) == sweep::swept(c, from, to, first, bound),
            removed == sweep::swept_offsets(c, from, to, first, bound).len(),
            c == chunks::chunks(old(data)@),
            !hit ==> data@ == old(data)@,
            hit ==> from == to || !chunks::nonempty_chunks(c) || !stored_nowhere(
                c,
                from as int,
                to as int,
            ),
    {
        let b_start: u64 = keys[i];
        proof {
            sweep::lemma_keys_skip(c, keys@, i as int, bound, first, to);
            sweep::lemma_sweep_one(c, from, to, first, bound, b_start);
            sweep::lemma_sweep_offsets(c, from, to, first, bound, b_start);
            assert(chunks::chunks(data@).contains_key(b_start));
        }
        let n: u64 = bytes_len(piece_at(data, b_start)) as u64;
        let b_end: u64 = b_start + n;
        proof {
            bound = b_start + 1;
        }
        let before = b_start < from && b_end <= from;
        let behind = b_start >= to && n > 0;
        if !before && !behind {
            let bytes = take_piece(data, b_start);
            // What is left of the piece before and behind the range.
            if b_start < from {
                put_piece(data, b_start, bytes_slice(&bytes, 0, (from - b_start) as usize));
            }
            if b_end > to {
                put_piece(data, to, bytes_slice(&bytes, (to - b_start) as usize, n as usize));
            }
            let lo: u64 = if b_start < from { from } else { b_start };
            let hi: u64 = if b_end < to { b_end } else { to };
            removed = removed + (hi - lo);
            proof {
                hit = true;
                if n > 0 && from < to {
                    assert(chunks::in_chunk(c, b_start, lo as int));
                    assert(chunks::is_stored(c, lo as int));
                }
            }
        }
        proof {
            assert(c[b_start].skip(0) =~= c[b_start]);
            assert(chunks::chunks(data@) =~= sweep::swept(c, from, to, first, bound));
        }
    }
    proof {
        assert forall|k: u64| bound <= k <= to implies !#[trigger] c.contains_key(k) by {
            if c.contains_key(k) {
                let i = choose|i: int| 0 <= i < keys@.len() && keys@[i] == k;
                assert(keys@[i] <= keys@[keys@.len() - 1]);
            }
        }
        sweep::lemma_sweep_all(c, from, to, first, bound);
        chunks::lemma_without_range(c, from, to);
        lemma_removed_and_left(c, from, to);
        if stored_nowhere(c, from as int, to as int) {
            assert(chunks::stored_between(c, from as int, to as int) =~= Set::<int>::empty());
        }
    }
    removed
}

/// What is taken out and what is left are together what was held.
proof fn lemma_removed_and_left(c: Map<u64, Seq<u8>>, from: u64, to: u64)
    requires
        chunks::disjoint_chunks(c),
        from <= to,
    ensures
        chunks::stored(chunks::without_range(c, from, to)).dom().len() + chunks::stored_between(
            c,
            from as int,
            to as int,
        ).len() == chunks::stored(c).dom().len(),
{
    chunks::lemma_without_range(c, from, to);
    let out = chunks::stored_between(c, from as int, to as int);
    let left = chunks::stored(chunks::without_range(c, from, to)).dom();
    chunks::lemma_offsets(c);
    chunks::lemma_offsets(chunks::without_range(c, from, to));
    assert(out.subset_of(chunks::stored(c).dom()));
    vstd::set_lib::lemma_len_subset(out, chunks::stored(c).dom());
    assert(chunks::stored(c).dom() =~= left + out);
    vstd::set_lib::lemma_set_disjoint_lens(left, out);
}

/// The bytes of a map are those of its pieces, each at the offset of the piece and its place in
/// it, and they are counted and recorded.
pub proof fn law_the_map_holds_its_pieces(map: MemoryMap, k: u64, i: int, x: int)
    requires
        map.wf(),
    ensures
        map.inner.data@.contains_key(k) && 0 <= i < buffer::content(map.inner.data@[k]).len()
            ==> map@.contains_key(k + i) && map@[k + i] == buffer::content(map.inner.data@[k])[i],
        map@.contains_key(x) ==> exists|j: u64| #[trigger]
            map.inner.data@.contains_key(j) && j <= x < j + buffer::content(
                map.inner.data@[j],
            ).len() && map@[x] == buffer::content(map.inner.data@[j])[x - j],
        map@.contains_key(x) <==> map.inner.record@.contains(x),
        map@.contains_key(x) ==> 0 <= x < map.len,
        map.inner.data_len == map@.dom().len(),
{
    let c = chunks::chunks(map.inner.data@);
    chunks::law_pieces_hold_their_bytes(c, k, i, x);
    if map@.contains_key(x) {
        let j = choose|j: u64| #[trigger]
            c.contains_key(j) && j <= x < j + c[j].len() && chunks::stored(c)[x] == c[j][x - j];
        assert(map.inner.data@.contains_key(j));
    }
}

/// Of bytes that are put at an offset those fit that lie before the end, and they are the first
/// ones. The zone that is kept begins the limit before the position, or at the begin.
pub proof fn law_what_fits(bytes: Seq<u8>, offset: int, len: int, i: int, pos: u64, limit: u64)
    requires
        0 <= offset <= len,
    ensures
        fitting(bytes, offset, len).len() <= bytes.len(),
        offset + fitting(bytes, offset, len).len() <= len,
        fitting(bytes, offset, len).len() == bytes.len() || offset + fitting(
            bytes,
            offset,
            len,
        ).len() == len,
        0 <= i < fitting(bytes, offset, len).len() ==> fitting(bytes, offset, len)[i] == bytes[i],
        pos >= limit ==> zone_start(pos, limit) == pos - limit,
        pos < limit ==> zone_start(pos, limit) == 0,
{
}

/// Whether no byte is held at `from..to`.
pub open spec fn stored_nowhere(c: Map<u64, Seq<u8>>, from: int, to: int) -> bool {
    forall|x: int| from <= x < to ==> !#[trigger] chunks::is_stored(c, x)
}

/// The bytes held once those of `new` that lie in the entries of `g` are added to `held`.
spec fn added(held: Map<int, u8>, offset: int, new: Seq<u8>, g: Seq<(u64, u64)>) -> Map<int, u8> {
    Map::new(
        |x: int| held.contains_key(x) || entries::holds(g, x),
        |x: int|
            if held.contains_key(x) {
                held[x]
            } else {
                new[x - offset]
            },
    )
}

proof fn lemma_added_none(held: Map<int, u8>, offset: int, new: Seq<u8>, g: Seq<(u64, u64)>)
    ensures
        added(held, offset, new, g.take(0)) == held,
{
    assert(added(held, offset, new, g.take(0)) =~= held);
}

/// The next entry shares no offset with what was added before, and adds its own.
proof fn lemma_added_one(
    held: Map<int, u8>,
    offset: int,
    new: Seq<u8>,
    g: Seq<(u64, u64)>,
    i: int,
)
    requires
        0 <= i < g.len(),
        entries::ordered(g),
        forall|x: int| #[trigger] entries::holds(g, x) ==> !held.contains_key(x),
    ensures
        forall|x: int| g[i].0 <= x <= g[i].1 ==> !#[trigger] held.contains_key(x),
        forall|x: int|
            g[i].0 <= x <= g[i].1 ==> !#[trigger] added(
                held,
                offset,
                new,
                g.take(i),
            ).contains_key(x),
        forall|x: int| #[trigger]
            added(held, offset, new, g.take(i + 1)).contains_key(x) <==> added(
                held,
                offset,
                new,
                g.take(i),
            ).contains_key(x) || g[i].0 <= x <= g[i].1,
{
    assert forall|x: int| g[i].0 <= x <= g[i].1 implies !#[trigger] held.contains_key(x) by {
        assert(entries::holds(g, x));
    }
    assert forall|x: int| g[i].0 <= x <= g[i].1 implies !#[trigger] added(
        held,
        offset,
        new,
        g.take(i),
    ).contains_key(x) by {
        assert(entries::holds(g, x));
        if entries::holds(g.take(i), x) {
            let j = choose|j: int|
                0 <= j < i && (#[trigger] g.take(i)[j]).0 <= x <= g.take(i)[j].1;
            assert(g[j].1 < g[i].0);
        }
    }
    assert forall|x: int| #[trigger]
        added(held, offset, new, g.take(i + 1)).contains_key(x) <==> added(
            held,
            offset,
            new,
            g.take(i),
        ).contains_key(x) || g[i].0 <= x <= g[i].1 by {
        entries::lemma_holds_last(g.take(i + 1), x);
        assert(g.take(i + 1).drop_last() =~= g.take(i));
    }
}

/// The bytes of `held` that do not lie in the entries of `f`.
spec fn left(held: Map<int, u8>, f: Seq<(u64, u64)>) -> Map<int, u8> {
    Map::new(|x: int| held.contains_key(x) && !entries::holds(f, x), |x: int| held[x])
}

proof fn lemma_left_all(held: Map<int, u8>, f: Seq<(u64, u64)>)
    ensures
        left(held, f.take(0)) == held,
{
    assert(left(held, f.take(0)) =~= held);
}

/// What the next entry holds is there still, and goes with it.
proof fn lemma_left_one(held: Map<int, u8>, f: Seq<(u64, u64)>, i: int)
    requires
        0 <= i < f.len(),
        entries::ordered(f),
        forall|x: int| #[trigger] entries::holds(f, x) ==> held.contains_key(x),
    ensures
        forall|x: int|
            f[i].0 <= x <= f[i].1 ==> #[trigger] left(held, f.take(i)).contains_key(x),
        forall|x: int| #[trigger]
            left(held, f.take(i + 1)).contains_key(x) <==> left(held, f.take(i)).contains_key(x)
                && !(f[i].0 <= x <= f[i].1),
{
    assert forall|x: int| f[i].0 <= x <= f[i].1 implies #[trigger] left(
        held,
        f.take(i),
    ).contains_key(x) by {
        assert(entries::holds(f, x));
        if entries::holds(f.take(i), x) {
            let j = choose|j: int|
                0 <= j < i && (#[trigger] f.take(i)[j]).0 <= x <= f.take(i)[j].1;
            assert(f[j].1 < f[i].0);
        }
    }
    assert forall|x: int| #[trigger]
        left(held, f.take(i + 1)).contains_key(x) <==> left(held, f.take(i)).contains_key(x) && !(
        f[i].0 <= x <= f[i].1) by {
        entries::lemma_holds_last(f.take(i + 1), x);
        assert(f.take(i + 1).drop_last() =~= f.take(i));
    }
}

} // verus!
