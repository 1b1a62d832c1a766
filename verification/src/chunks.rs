//! Pieces of a file, as maps from the offset of a piece to its bytes.

use bytes::Bytes;
use vstd::prelude::*;

use crate::buffer;

verus! {

/// The pieces that a map of buffers holds.
pub open spec fn chunks(data: Map<u64, Bytes>) -> Map<u64, Seq<u8>> {
    Map::new(|k: u64| data.contains_key(k), |k: u64| buffer::content(data[k]))
}

/// Whether the pieces end within the range of offsets and do not overlap.
pub open spec fn disjoint_chunks(c: Map<u64, Seq<u8>>) -> bool {
    &&& forall|k: u64| #[trigger] c.contains_key(k) ==> k + c[k].len() <= u64::MAX
    &&& forall|j: u64, k: u64| #[trigger]
        c.contains_key(j) && #[trigger] c.contains_key(k) && j < k ==> j + c[j].len() <= k
}

/// Whether each piece holds at least one byte.
pub open spec fn nonempty_chunks(c: Map<u64, Seq<u8>>) -> bool {
    forall|k: u64| #[trigger] c.contains_key(k) ==> c[k].len() > 0
}

/// Whether the piece at `k` holds the byte at offset `x`.
pub open spec fn in_chunk(c: Map<u64, Seq<u8>>, k: u64, x: int) -> bool {
    c.contains_key(k) && k <= x < k + c[k].len()
}

/// Whether a piece holds the byte at offset `x`.
pub open spec fn is_stored(c: Map<u64, Seq<u8>>, x: int) -> bool {
    exists|k: u64| #[trigger] in_chunk(c, k, x)
}

/// The bytes that the pieces hold, by their offset.
pub open spec fn stored(c: Map<u64, Seq<u8>>) -> Map<int, u8> {
    Map::new(
        |x: int| is_stored(c, x),
        |x: int|
            {
                let k = choose|k: u64| #[trigger] in_chunk(c, k, x);
                c[k][x - k]
            },
    )
}

/// The offsets in `from..to` at which a byte is held.
pub open spec fn stored_between(c: Map<u64, Seq<u8>>, from: int, to: int) -> Set<int> {
    Set::new(|x: int| from <= x < to && is_stored(c, x))
}

/// The pieces without the bytes at `from..to`. One that reaches over `to` is cut there.
pub open spec fn without_range(c: Map<u64, Seq<u8>>, from: u64, to: u64) -> Map<u64, Seq<u8>> {
    Map::new(
        |k: u64|
            if k < from {
                c.contains_key(k)
            } else if k == to {
                is_stored(c, to as int)
            } else {
                k > to && c.contains_key(k)
            },
        |k: u64|
            if k < from {
                if k + c[k].len() > from {
                    c[k].take(from - k)
                } else {
                    c[k]
                }
            } else if k == to {
                let j = choose|j: u64| #[trigger] in_chunk(c, j, to as int);
                c[j].skip(to - j)
            } else {
                c[k]
            },
    )
}

/// Of disjoint pieces one at most holds a given offset.
pub(crate) proof fn lemma_one_chunk(c: Map<u64, Seq<u8>>, j: u64, k: u64, x: int)
    requires
        disjoint_chunks(c),
        in_chunk(c, j, x),
        in_chunk(c, k, x),
    ensures
        j == k,
{
}

/// The byte at an offset is the one that its piece holds there.
pub(crate) proof fn lemma_stored_at(c: Map<u64, Seq<u8>>, k: u64, x: int)
    requires
        disjoint_chunks(c),
        in_chunk(c, k, x),
    ensures
        stored(c).contains_key(x),
        stored(c)[x] == c[k][x - k],
{
    let j = choose|j: u64| #[trigger] in_chunk(c, j, x);
    lemma_one_chunk(c, j, k, x);
}

/// Only the bytes in the range go.
pub(crate) proof fn lemma_without_range(c: Map<u64, Seq<u8>>, from: u64, to: u64)
    requires
        disjoint_chunks(c),
        from <= to,
    ensures
        disjoint_chunks(without_range(c, from, to)),
        nonempty_chunks(c) ==> nonempty_chunks(without_range(c, from, to)),
        forall|x: int| #[trigger]
            stored(without_range(c, from, to)).contains_key(x) <==> {
                &&& stored(c).contains_key(x)
                &&& !(from <= x < to)
            },
        forall|x: int| #[trigger]
            stored(without_range(c, from, to)).contains_key(x) ==> stored(
                without_range(c, from, to),
            )[x] == stored(c)[x],
{
    let d = without_range(c, from, to);
    let j = choose|j: u64| #[trigger] in_chunk(c, j, to as int);
    assert forall|k: u64| #[trigger] d.contains_key(k) implies k + d[k].len() <= u64::MAX by {
        if k == to {
            assert(in_chunk(c, j, to as int));
        }
    }
    assert forall|i: u64, k: u64| #[trigger]
        d.contains_key(i) && #[trigger] d.contains_key(k) && i < k implies i + d[i].len() <= k by {
        if k == to {
            assert(in_chunk(c, j, to as int));
        }
        if i == to {
            assert(in_chunk(c, j, to as int));
            assert(c.contains_key(k));
        }
    }
    assert forall|x: int| #[trigger] stored(d).contains_key(x) implies {
        &&& stored(c).contains_key(x)
        &&& !(from <= x < to)
        &&& stored(d)[x] == stored(c)[x]
    } by {
        let k = choose|k: u64| #[trigger] in_chunk(d, k, x);
        lemma_stored_at(d, k, x);
        let i = if k == to {
            j
        } else {
            k
        };
        assert(in_chunk(c, i, x));
        lemma_stored_at(c, i, x);
    }
    assert forall|x: int|
        {
            &&& stored(c).contains_key(x)
            &&& !(from <= x < to)
        } implies #[trigger] stored(d).contains_key(x) by {
        let k = choose|k: u64| #[trigger] in_chunk(c, k, x);
        if x < from {
            assert(in_chunk(d, k, x));
        } else if k <= to {
            assert(in_chunk(c, k, to as int));
            lemma_one_chunk(c, j, k, to as int);
            assert(in_chunk(d, to, x));
        } else {
            assert(in_chunk(d, k, x));
        }
    }
    if nonempty_chunks(c) {
        assert forall|k: u64| #[trigger] d.contains_key(k) implies d[k].len() > 0 by {
            if k == to {
                assert(in_chunk(c, j, to as int));
            }
        }
    }
}

/// The bytes held once `bytes` are put at `offset`, where a byte that is already held stays.
pub open spec fn placed(held: Map<int, u8>, offset: int, bytes: Seq<u8>) -> Map<int, u8> {
    Map::new(
        |x: int| held.contains_key(x) || offset <= x < offset + bytes.len(),
        |x: int|
            if held.contains_key(x) {
                held[x]
            } else {
                bytes[x - offset]
            },
    )
}

/// The bytes held at `start..end`.
pub open spec fn between(held: Map<int, u8>, start: int, end: int) -> Map<int, u8> {
    Map::new(|x: int| held.contains_key(x) && start <= x < end, |x: int| held[x])
}

/// The bytes at `start..end`, one after the other.
pub open spec fn run(held: Map<int, u8>, start: int, end: int) -> Seq<u8> {
    Seq::new((end - start) as nat, |i: int| held[start + i])
}

/// Whether all bytes at `start..end` are held.
pub open spec fn holds_all(held: Map<int, u8>, start: int, end: int) -> bool {
    forall|x: int| start <= x < end ==> #[trigger] held.contains_key(x)
}

/// The offsets held are finitely many, and below the greatest `u64`.
pub(crate) proof fn lemma_offsets(c: Map<u64, Seq<u8>>)
    requires
        disjoint_chunks(c),
    ensures
        stored(c).dom().finite(),
        stored(c).dom().len() <= u64::MAX,
        forall|x: int| #[trigger] stored(c).contains_key(x) ==> 0 <= x < u64::MAX,
{
    let all = vstd::set_lib::set_int_range(0, u64::MAX as int);
    vstd::set_lib::lemma_int_range(0, u64::MAX as int);
    assert forall|x: int| #[trigger] stored(c).contains_key(x) implies 0 <= x < u64::MAX by {
        let k = choose|k: u64| #[trigger] in_chunk(c, k, x);
        assert(c.contains_key(k));
    }
    assert(stored(c).dom().subset_of(all));
    vstd::set_lib::lemma_len_subset(stored(c).dom(), all);
}

/// A piece that shares no offset with the others can be put among them.
pub(crate) proof fn lemma_insert(c: Map<u64, Seq<u8>>, key: u64, piece: Seq<u8>)
    requires
        disjoint_chunks(c),
        nonempty_chunks(c),
        piece.len() > 0,
        key + piece.len() <= u64::MAX,
        forall|x: int| key <= x < key + piece.len() ==> !#[trigger] stored(c).contains_key(x),
    ensures
        disjoint_chunks(c.insert(key, piece)),
        nonempty_chunks(c.insert(key, piece)),
        stored(c.insert(key, piece)) == placed(stored(c), key as int, piece),
{
    let d = c.insert(key, piece);
    assert(!c.contains_key(key)) by {
        if c.contains_key(key) {
            assert(in_chunk(c, key, key as int));
            assert(!stored(c).contains_key(key as int));
        }
    }
    assert forall|j: u64, k: u64| #[trigger]
        d.contains_key(j) && #[trigger] d.contains_key(k) && j < k implies j + d[j].len() <= k by {
        if j == key {
            assert(in_chunk(c, k, k as int));
            assert(stored(c).contains_key(k as int));
        } else if k == key {
            if j + c[j].len() > key {
                assert(in_chunk(c, j, key as int));
                assert(stored(c).contains_key(key as int));
            }
        } else {
            assert(c.contains_key(j) && c.contains_key(k));
        }
    }
    assert forall|k: u64| #[trigger] d.contains_key(k) implies k + d[k].len() <= u64::MAX
        && d[k].len() > 0 by {
        if k != key {
            assert(c.contains_key(k));
        }
    }
    let goal = placed(stored(c), key as int, piece);
    assert forall|x: int| #[trigger] stored(d).contains_key(x) <==> goal.contains_key(x) by {
        if key <= x < key + piece.len() {
            assert(in_chunk(d, key, x));
        }
        if stored(c).contains_key(x) {
            let k = choose|k: u64| #[trigger] in_chunk(c, k, x);
            assert(in_chunk(d, k, x));
        }
        if stored(d).contains_key(x) {
            let k = choose|k: u64| #[trigger] in_chunk(d, k, x);
            if k != key {
                assert(in_chunk(c, k, x));
            }
        }
    }
    assert forall|x: int| #[trigger] stored(d).contains_key(x) implies stored(d)[x] == goal[x] by {
        let k = choose|k: u64| #[trigger] in_chunk(d, k, x);
        lemma_stored_at(d, k, x);
        if k != key {
            assert(in_chunk(c, k, x));
            lemma_stored_at(c, k, x);
        } else {
            assert(!stored(c).contains_key(x));
        }
    }
    assert(stored(d) =~= goal);
}

/// Where all bytes of the range are held, they go, and no others.
pub(crate) proof fn lemma_without_held(c: Map<u64, Seq<u8>>, from: u64, to: u64)
    requires
        disjoint_chunks(c),
        nonempty_chunks(c),
        from < to,
        holds_all(stored(c), from as int, to as int),
    ensures
        disjoint_chunks(without_range(c, from, to)),
        nonempty_chunks(without_range(c, from, to)),
        stored_between(c, from as int, to as int).len() == to - from,
        stored(without_range(c, from, to)) == stored(c).remove_keys(
            vstd::set_lib::set_int_range(from as int, to as int),
        ),
        stored(without_range(c, from, to)).dom().len() == stored(c).dom().len() - (to - from),
{
    lemma_without_range(c, from, to);
    let d = without_range(c, from, to);
    let out = vstd::set_lib::set_int_range(from as int, to as int);
    vstd::set_lib::lemma_int_range(from as int, to as int);
    assert(stored(d) =~= stored(c).remove_keys(out));
    assert(stored_between(c, from as int, to as int) =~= out) by {
        assert forall|x: int| from <= x < to implies is_stored(c, x) by {
            assert(stored(c).contains_key(x));
        }
    }
    lemma_offsets(c);
    lemma_offsets(d);
    assert(stored(c).dom() =~= stored(d).dom() + out) by {
        assert forall|x: int| out.contains(x) implies stored(c).dom().contains(x) by {
            assert(stored(c).contains_key(x));
        }
    }
    vstd::set_lib::lemma_set_disjoint_lens(stored(d).dom(), out);
}

/// Whether the bytes held are bytes of the file, at their offsets.
pub open spec fn agrees(held: Map<int, u8>, file: Seq<u8>) -> bool {
    forall|x: int| #[trigger] held.contains_key(x) ==> 0 <= x < file.len() && held[x] == file[x]
}

/// Taking a range out of the pieces takes out its bytes, and no others. The pieces stay disjoint.
pub proof fn law_removal_takes_the_range_out(c: Map<u64, Seq<u8>>, from: u64, to: u64)
    requires
        disjoint_chunks(c),
        from <= to,
    ensures
        disjoint_chunks(without_range(c, from, to)),
        forall|x: int| #[trigger]
            stored(without_range(c, from, to)).contains_key(x) <==> {
                &&& stored(c).contains_key(x)
                &&& !(from <= x < to)
            },
        forall|x: int| #[trigger]
            stored(without_range(c, from, to)).contains_key(x) ==> stored(
                without_range(c, from, to),
            )[x] == stored(c)[x],
{
    lemma_without_range(c, from, to);
}

/// Taking out a range of which no byte is held changes no piece.
pub proof fn law_removal_outside_changes_nothing(c: Map<u64, Seq<u8>>, from: u64, to: u64)
    requires
        disjoint_chunks(c),
        nonempty_chunks(c),
        from < to,
        forall|x: int| from <= x < to ==> !#[trigger] stored(c).contains_key(x),
    ensures
        without_range(c, from, to) == c,
        stored_between(c, from as int, to as int) == Set::<int>::empty(),
{
    let d = without_range(c, from, to);
    assert forall|x: int| from <= x < to implies !is_stored(c, x) by {
        assert(!stored(c).contains_key(x));
    }
    assert forall|k: u64| #[trigger] c.contains_key(k) implies !(from <= k < to) && (k < from
        ==> k + c[k].len() <= from) by {
        if from <= k < to {
            assert(in_chunk(c, k, k as int));
            assert(is_stored(c, k as int));
        } else if k < from && k + c[k].len() > from {
            assert(in_chunk(c, k, from as int));
            assert(is_stored(c, from as int));
        }
    }
    if c.contains_key(to) {
        assert(in_chunk(c, to, to as int));
        let j = choose|j: u64| #[trigger] in_chunk(c, j, to as int);
        lemma_one_chunk(c, j, to, to as int);
        assert(c[to].skip(0) =~= c[to]);
    } else if is_stored(c, to as int) {
        let j = choose|j: u64| #[trigger] in_chunk(c, j, to as int);
        assert(c.contains_key(j));
        assert(in_chunk(c, j, to - 1));
        assert(is_stored(c, to - 1));
    }
    assert(d =~= c);
    assert(stored_between(c, from as int, to as int) =~= Set::<int>::empty());
}

/// Bytes that are put where none were held are read back as they are.
pub proof fn law_placed_bytes_are_read_back(held: Map<int, u8>, offset: int, bytes: Seq<u8>)
    requires
        forall|x: int| offset <= x < offset + bytes.len() ==> !#[trigger] held.contains_key(x),
    ensures
        holds_all(placed(held, offset, bytes), offset, offset + bytes.len()),
        run(placed(held, offset, bytes), offset, offset + bytes.len()) == bytes,
{
    let r = run(placed(held, offset, bytes), offset, offset + bytes.len());
    assert forall|i: int| 0 <= i < bytes.len() implies r[i] == bytes[i] by {
        assert(!held.contains_key(offset + i));
    }
    assert(r =~= bytes);
}

/// Putting bytes changes none that were held, and holds no others but those.
pub proof fn law_placing_keeps_what_is_held(
    held: Map<int, u8>,
    offset: int,
    bytes: Seq<u8>,
    x: int,
)
    ensures
        held.contains_key(x) ==> placed(held, offset, bytes).contains_key(x) && placed(
            held,
            offset,
            bytes,
        )[x] == held[x],
        placed(held, offset, bytes).contains_key(x) ==> held.contains_key(x) || offset <= x
            < offset + bytes.len(),
{
}

/// Putting the same bytes a second time changes nothing.
pub proof fn law_placing_twice(held: Map<int, u8>, offset: int, bytes: Seq<u8>)
    ensures
        placed(placed(held, offset, bytes), offset, bytes) == placed(held, offset, bytes),
{
    assert(placed(placed(held, offset, bytes), offset, bytes) =~= placed(held, offset, bytes));
}

/// Putting bytes of the file at their offset, and freeing others, leaves bytes of the file only.
pub proof fn law_placing_keeps_to_the_file(
    held: Map<int, u8>,
    offset: int,
    bytes: Seq<u8>,
    start: int,
    end: int,
    file: Seq<u8>,
)
    requires
        agrees(held, file),
        0 <= offset,
        offset + bytes.len() <= file.len(),
        bytes == file.subrange(offset, offset + bytes.len()),
    ensures
        agrees(placed(held, offset, bytes), file),
        agrees(between(placed(held, offset, bytes), start, end), file),
{
    let all = placed(held, offset, bytes);
    assert forall|x: int| #[trigger] all.contains_key(x) implies 0 <= x < file.len() && all[x]
        == file[x] by {
        if !held.contains_key(x) {
            assert(bytes[x - offset] == file[x]);
        }
    }
    assert forall|x: int| #[trigger] between(all, start, end).contains_key(x) implies 0 <= x
        < file.len() && between(all, start, end)[x] == file[x] by {
        assert(all.contains_key(x));
    }
}

/// What is read of bytes of the file is a part of the file.
pub proof fn law_reads_are_parts_of_the_file(
    held: Map<int, u8>,
    start: int,
    end: int,
    file: Seq<u8>,
)
    requires
        agrees(held, file),
        holds_all(held, start, end),
        0 <= start <= end <= file.len(),
    ensures
        run(held, start, end) == file.subrange(start, end),
{
    assert forall|i: int| 0 <= i < end - start implies run(held, start, end)[i] == file.subrange(
        start,
        end,
    )[i] by {
        assert(held.contains_key(start + i));
    }
    assert(run(held, start, end) =~= file.subrange(start, end));
}

/// The byte at the offset `x` is the one that a piece holds there: the piece at `k` holds its byte
/// number `i` at the offset `k + i`.
pub proof fn law_pieces_hold_their_bytes(c: Map<u64, Seq<u8>>, k: u64, i: int, x: int)
    requires
        disjoint_chunks(c),
    ensures
        c.contains_key(k) && 0 <= i < c[k].len() ==> stored(c).contains_key(k + i) && stored(c)[k + i]
            == c[k][i],
        stored(c).contains_key(x) ==> exists|j: u64| #[trigger]
            c.contains_key(j) && j <= x < j + c[j].len() && stored(c)[x] == c[j][x - j],
{
    if c.contains_key(k) && 0 <= i < c[k].len() {
        assert(in_chunk(c, k, k + i));
        lemma_stored_at(c, k, k + i);
    }
    if stored(c).contains_key(x) {
        let j = choose|j: u64| #[trigger] in_chunk(c, j, x);
        lemma_stored_at(c, j, x);
        assert(c.contains_key(j));
    }
}

/// What is held after bytes were put, after all but a zone was freed, and what is read of it.
pub proof fn law_what_is_held(
    held: Map<int, u8>,
    offset: int,
    bytes: Seq<u8>,
    start: int,
    end: int,
    x: int,
)
    ensures
        placed(held, offset, bytes).contains_key(x) <==> held.contains_key(x) || offset <= x
            < offset + bytes.len(),
        held.contains_key(x) ==> placed(held, offset, bytes)[x] == held[x],
        !held.contains_key(x) && offset <= x < offset + bytes.len() ==> placed(
            held,
            offset,
            bytes,
        )[x] == bytes[x - offset],
        between(held, start, end).contains_key(x) <==> held.contains_key(x) && start <= x < end,
        held.contains_key(x) && start <= x < end ==> between(held, start, end)[x] == held[x],
        start <= end ==> run(held, start, end).len() == end - start,
        start <= x < end ==> run(held, start, end)[x - start] == held[x],
        holds_all(held, start, end) <==> forall|y: int|
            start <= y < end ==> #[trigger] held.contains_key(y),
{
}

/// How pieces are cut when a range is taken out of them. The front part of a piece stays where it
/// is, the rear part begins where the range ends, and what does not reach into the range stays as
/// it is.
pub proof fn law_removal_cuts_pieces(c: Map<u64, Seq<u8>>, from: u64, to: u64, k: u64)
    requires
        disjoint_chunks(c),
        nonempty_chunks(c),
        from <= to,
    ensures
        c.contains_key(k) && k < from && k + c[k].len() <= from ==> without_range(
            c,
            from,
            to,
        ).contains_key(k) && without_range(c, from, to)[k] == c[k],
        c.contains_key(k) && k < from < k + c[k].len() ==> without_range(
            c,
            from,
            to,
        ).contains_key(k) && without_range(c, from, to)[k] == c[k].subrange(0, from - k),
        c.contains_key(k) && k <= to < k + c[k].len() ==> without_range(c, from, to).contains_key(
            to,
        ) && without_range(c, from, to)[to] == c[k].subrange(to - k, c[k].len() as int),
        c.contains_key(k) && k > to ==> without_range(c, from, to).contains_key(k) && without_range(
            c,
            from,
            to,
        )[k] == c[k],
        without_range(c, from, to).contains_key(k) ==> k < from && c.contains_key(k) || k > to
            && c.contains_key(k) || k == to && exists|j: u64| #[trigger]
            c.contains_key(j) && j <= to < j + c[j].len(),
{
    if c.contains_key(k) && k <= to < k + c[k].len() {
        assert(in_chunk(c, k, to as int));
        let j = choose|j: u64| #[trigger] in_chunk(c, j, to as int);
        lemma_one_chunk(c, j, k, to as int);
        assert(c[k].skip(to - k) =~= c[k].subrange(to - k, c[k].len() as int));
    }
    if c.contains_key(k) && k < from < k + c[k].len() {
        assert(c[k].take(from - k) =~= c[k].subrange(0, from - k));
    }
    if without_range(c, from, to).contains_key(k) && k == to {
        let j = choose|j: u64| #[trigger] in_chunk(c, j, to as int);
        assert(c.contains_key(j));
    }
}

} // verus!
