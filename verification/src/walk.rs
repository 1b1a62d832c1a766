//! How pieces join to the bytes of a range, one after the other.

use vstd::prelude::*;

use crate::chunks;

verus! {

/// How far the bytes from `start` on go in the first `n` of the pieces at `keys`.
pub open spec fn reach(c: Map<u64, Seq<u8>>, keys: Seq<u64>, n: int, start: int, end: int) -> int {
    if n == 0 {
        start
    } else {
        let piece_end = keys[n - 1] + c[keys[n - 1]].len();
        if piece_end < start {
            start
        } else if piece_end < end {
            piece_end
        } else {
            end
        }
    }
}

/// Of fewer bytes than the range is long, one of the range is not held.
pub(crate) proof fn lemma_enough(held: Map<int, u8>, start: int, end: int)
    requires
        start <= end,
        held.dom().finite(),
    ensures
        held.dom().len() < end - start ==> !chunks::holds_all(held, start, end),
{
    if chunks::holds_all(held, start, end) {
        let all = vstd::set_lib::set_int_range(start, end);
        vstd::set_lib::lemma_int_range(start, end);
        assert forall|x: int| all.contains(x) implies held.dom().contains(x) by {
            assert(held.contains_key(x));
        }
        vstd::set_lib::lemma_len_subset(all, held.dom());
    }
}

/// Where no piece begins at `start` or before it, no byte is held there or before.
pub(crate) proof fn lemma_none_before(c: Map<u64, Seq<u8>>, start: u64)
    requires
        chunks::disjoint_chunks(c),
        forall|k: u64| #[trigger] c.contains_key(k) ==> k > start,
    ensures
        forall|x: int| #[trigger] chunks::stored(c).contains_key(x) ==> x > start,
{
    assert forall|x: int| #[trigger] chunks::stored(c).contains_key(x) implies x > start by {
        let k = choose|k: u64| #[trigger] chunks::in_chunk(c, k, x);
        assert(c.contains_key(k));
    }
}

/// The piece that holds an offset of the range stands among those at `keys`.
pub(crate) proof fn lemma_piece_listed(
    c: Map<u64, Seq<u8>>,
    keys: Seq<u64>,
    first: u64,
    start: u64,
    end: u64,
    x: int,
) -> (i: int)
    requires
        chunks::disjoint_chunks(c),
        chunks::holds_all(chunks::stored(c), start as int, end as int),
        c.contains_key(first),
        first <= start,
        forall|k: u64| #[trigger] c.contains_key(k) && first <= k < end ==> keys.contains(k),
        start <= x < end,
    ensures
        0 <= i < keys.len(),
        chunks::in_chunk(c, keys[i], x),
{
    assert(chunks::stored(c).contains_key(x));
    let k = choose|k: u64| #[trigger] chunks::in_chunk(c, k, x);
    assert(c.contains_key(k));
    assert(k >= first);
    choose|i: int| 0 <= i < keys.len() && keys[i] == k
}

/// The first piece holds `start`, and every other one begins where the one before it ends.
pub(crate) proof fn lemma_next_piece(
    c: Map<u64, Seq<u8>>,
    keys: Seq<u64>,
    i: int,
    first: u64,
    start: u64,
    end: u64,
)
    requires
        0 <= i < keys.len(),
        chunks::disjoint_chunks(c),
        chunks::holds_all(chunks::stored(c), start as int, end as int),
        start <= end,
        c.contains_key(first),
        first <= start,
        forall|k: u64| #[trigger] c.contains_key(k) && k <= start ==> k <= first,
        forall|k: int|
            0 <= k < keys.len() ==> c.contains_key(#[trigger] keys[k]) && first <= keys[k] < end,
        forall|k: int, l: int| 0 <= k < l < keys.len() ==> keys[k] < keys[l],
        forall|k: u64| #[trigger] c.contains_key(k) && first <= k < end ==> keys.contains(k),
    ensures
        i == 0 ==> keys[i] == first,
        i > 0 ==> keys[i] > start && keys[i] == reach(c, keys, i, start as int, end as int),
{
    if i == 0 {
        assert(keys.contains(first));
        let j = choose|j: int| 0 <= j < keys.len() && keys[j] == first;
        if j > 0 {
            assert(keys[0] < keys[j]);
        }
    } else {
        let prev = keys[i - 1];
        assert(c.contains_key(prev) && c.contains_key(keys[i]));
        assert(keys[i - 1] < keys[i]);
        let p = prev + c[prev].len();
        assert(p <= keys[i]);
        assert(keys[i] > start);
        // The offset that would not be listed if the pieces did not join.
        let x = if p < start {
            start as int
        } else {
            p
        };
        if x < keys[i] {
            let j = lemma_piece_listed(c, keys, first, start, end, x);
            if j < i - 1 {
                assert(c.contains_key(keys[j]));
                assert(keys[j] < keys[i - 1]);
            } else if j > i {
                assert(keys[i] < keys[j]);
            }
            assert(false);
        }
    }
}

/// The last piece goes on to the end of the range.
pub(crate) proof fn lemma_reached_end(
    c: Map<u64, Seq<u8>>,
    keys: Seq<u64>,
    first: u64,
    start: u64,
    end: u64,
)
    requires
        chunks::disjoint_chunks(c),
        chunks::holds_all(chunks::stored(c), start as int, end as int),
        start <= end,
        c.contains_key(first),
        first <= start,
        forall|k: int|
            0 <= k < keys.len() ==> c.contains_key(#[trigger] keys[k]) && first <= keys[k] < end,
        forall|k: int, l: int| 0 <= k < l < keys.len() ==> keys[k] < keys[l],
        forall|k: u64| #[trigger] c.contains_key(k) && first <= k < end ==> keys.contains(k),
    ensures
        reach(c, keys, keys.len() as int, start as int, end as int) == end,
{
    let n = keys.len() as int;
    let x = reach(c, keys, n, start as int, end as int);
    if x < end {
        let j = lemma_piece_listed(c, keys, first, start, end, x);
        if j < n - 1 {
            assert(c.contains_key(keys[j]) && c.contains_key(keys[n - 1]));
            assert(keys[j] < keys[n - 1]);
        }
        assert(false);
    }
}

} // verus!
