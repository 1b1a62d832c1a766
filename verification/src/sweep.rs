//! How a range is taken out of pieces, one after the other.

use vstd::prelude::*;

use crate::chunks;

verus! {

/// The pieces that are left when of those at `first..bound` the bytes at `from..to` were taken
/// out.
pub open spec fn swept(
    c: Map<u64, Seq<u8>>,
    from: u64,
    to: u64,
    first: u64,
    bound: int,
) -> Map<u64, Seq<u8>> {
    Map::new(
        |k: u64|
            if k == to {
                (c.contains_key(to) && to >= bound) || exists|j: u64| #[trigger]
                    chunks::in_chunk(c, j, to as int) && first <= j < bound
            } else {
                c.contains_key(k) && (first <= k < bound ==> k < from)
            },
        |k: u64|
            if k == to {
                if c.contains_key(to) && to >= bound {
                    c[to]
                } else {
                    let j = choose|j: u64| #[trigger] chunks::in_chunk(c, j, to as int);
                    c[j].skip(to - j)
                }
            } else if first <= k < bound && k + c[k].len() > from {
                c[k].take(from - k)
            } else {
                c[k]
            },
    )
}

/// The offsets in `from..to` that the pieces at `first..bound` hold.
pub open spec fn swept_offsets(c: Map<u64, Seq<u8>>, from: u64, to: u64, first: u64, bound: int) -> Set<
    int,
> {
    Set::new(
        |x: int|
            from <= x < to && exists|k: u64| #[trigger]
                chunks::in_chunk(c, k, x) && first <= k < bound,
    )
}

/// Before any piece is handled nothing has changed.
pub(crate) proof fn lemma_sweep_none(c: Map<u64, Seq<u8>>, from: u64, to: u64, first: u64)
    requires
        chunks::disjoint_chunks(c),
        first <= to,
    ensures
        swept(c, from, to, first, first as int) == c,
        swept_offsets(c, from, to, first, first as int) == Set::<int>::empty(),
{
    assert(swept(c, from, to, first, first as int) =~= c);
    assert(swept_offsets(c, from, to, first, first as int) =~= Set::<int>::empty());
}

/// No piece begins between two keys that follow each other.
pub(crate) proof fn lemma_keys_skip(
    c: Map<u64, Seq<u8>>,
    keys: Seq<u64>,
    i: int,
    bound: int,
    first: u64,
    to: u64,
)
    requires
        0 <= i < keys.len(),
        bound == (if i == 0 { first as int } else { keys[i - 1] + 1 }),
        first <= bound,
        forall|k: int| 0 <= k < keys.len() ==> first <= #[trigger] keys[k] <= to,
        forall|k: int, l: int| 0 <= k < l < keys.len() ==> keys[k] < keys[l],
        forall|k: u64| #[trigger] c.contains_key(k) && first <= k <= to ==> keys.contains(k),
    ensures
        bound <= keys[i],
        forall|k: u64| bound <= k < keys[i] ==> !#[trigger] c.contains_key(k),
{
    assert forall|k: u64| bound <= k < keys[i] implies !#[trigger] c.contains_key(k) by {
        if c.contains_key(k) {
            let j = choose|j: int| 0 <= j < keys.len() && keys[j] == k;
            if j < i - 1 {
                assert(keys[j] < keys[i - 1]);
            }
        }
    }
}

/// What becomes of the pieces when the next one, at `key`, is handled.
pub(crate) proof fn lemma_sweep_one(
    c: Map<u64, Seq<u8>>,
    from: u64,
    to: u64,
    first: u64,
    bound: int,
    key: u64,
)
    requires
        chunks::disjoint_chunks(c),
        from <= to,
        first <= bound <= key <= to,
        c.contains_key(key),
        forall|k: u64| bound <= k < key ==> !#[trigger] c.contains_key(k),
        forall|k: u64| #[trigger] c.contains_key(k) && k <= from ==> k <= first,
    ensures
        swept(c, from, to, first, bound).contains_key(key),
        swept(c, from, to, first, bound)[key] == c[key],
        ({
            let rest = swept(c, from, to, first, bound).remove(key);
            let front = if key < from && key + c[key].len() > from {
                rest.insert(key, c[key].take(from - key))
            } else if key < from {
                rest.insert(key, c[key])
            } else {
                rest
            };
            let after = if key + c[key].len() > to {
                front.insert(to, c[key].skip(to - key))
            } else {
                front
            };
            swept(c, from, to, first, key + 1) == after
        }),
{
    let was = swept(c, from, to, first, bound);
    let is = swept(c, from, to, first, key + 1);
    let end = key + c[key].len();
    let rest = was.remove(key);
    let front = if key < from && end > from {
        rest.insert(key, c[key].take(from - key))
    } else if key < from {
        rest.insert(key, c[key])
    } else {
        rest
    };
    let after = if end > to {
        front.insert(to, c[key].skip(to - key))
    } else {
        front
    };
    if end > to {
        assert(chunks::in_chunk(c, key, to as int));
    }
    assert forall|j: u64| #[trigger] chunks::in_chunk(c, j, to as int) implies (first <= j < key
        + 1 <==> first <= j < bound || j == key) by {
        assert(c.contains_key(j));
    }
    let j = choose|j: u64| #[trigger] chunks::in_chunk(c, j, to as int);
    if end > to {
        chunks::lemma_one_chunk(c, j, key, to as int);
    }
    assert forall|k: u64| is.contains_key(k) <==> after.contains_key(k) by {
        if k == to {
            if c.contains_key(to) && to >= key + 1 {
                assert(to >= bound);
            }
        } else if c.contains_key(k) {
            assert(first <= k < key + 1 <==> first <= k < bound || k == key);
        }
    }
    assert forall|k: u64| is.contains_key(k) implies is[k] == after[k] by {
        if k == to {
        } else {
            assert(first <= k < key + 1 <==> first <= k < bound || k == key);
        }
    }
    assert(is =~= after);
}

/// What the offsets handled are when the next piece, at `key`, is handled.
pub(crate) proof fn lemma_sweep_offsets(
    c: Map<u64, Seq<u8>>,
    from: u64,
    to: u64,
    first: u64,
    bound: int,
    key: u64,
)
    requires
        chunks::disjoint_chunks(c),
        from <= to,
        first <= bound <= key <= to,
        c.contains_key(key),
        forall|k: u64| bound <= k < key ==> !#[trigger] c.contains_key(k),
    ensures
        ({
            let lo = if from < key { key as int } else { from as int };
            let hi = if key + c[key].len() < to { key + c[key].len() } else { to as int };
            let was = swept_offsets(c, from, to, first, bound);
            let is = swept_offsets(c, from, to, first, key + 1);
            &&& is.finite()
            &&& is.len() == was.len() + (if lo < hi { hi - lo } else { 0 })
            &&& is.len() <= to - from
        }),
{
    let lo = if from < key { key as int } else { from as int };
    let hi = if key + c[key].len() < to { key + c[key].len() } else { to as int };
    let was = swept_offsets(c, from, to, first, bound);
    let is = swept_offsets(c, from, to, first, key + 1);
    let all = vstd::set_lib::set_int_range(from as int, to as int);
    vstd::set_lib::lemma_int_range(from as int, to as int);
    assert(was.subset_of(all));
    assert(is.subset_of(all));
    vstd::set_lib::lemma_len_subset(was, all);
    vstd::set_lib::lemma_len_subset(is, all);
    let new = if lo < hi { vstd::set_lib::set_int_range(lo, hi) } else { Set::<int>::empty() };
    if lo < hi {
        vstd::set_lib::lemma_int_range(lo, hi);
    }
    assert forall|x: int| is.contains(x) <==> was.contains(x) || new.contains(x) by {
        if new.contains(x) {
            assert(chunks::in_chunk(c, key, x));
        }
        if is.contains(x) && !new.contains(x) {
            let k = choose|k: u64| #[trigger] chunks::in_chunk(c, k, x) && first <= k < key + 1;
            assert(c.contains_key(k));
            assert(k != key);
            assert(chunks::in_chunk(c, k, x) && first <= k < bound);
        }
    }
    assert forall|x: int| was.contains(x) implies !new.contains(x) by {
        let k = choose|k: u64| #[trigger] chunks::in_chunk(c, k, x) && first <= k < bound;
        assert(c.contains_key(k));
    }
    assert(is =~= was + new);
    vstd::set_lib::lemma_set_disjoint_lens(was, new);
}

/// When all pieces up to `to` are handled, the bytes in the range are out.
pub(crate) proof fn lemma_sweep_all(c: Map<u64, Seq<u8>>, from: u64, to: u64, first: u64, bound: int)
    requires
        chunks::disjoint_chunks(c),
        from <= to,
        first <= bound <= to + 1,
        forall|k: u64| bound <= k <= to ==> !#[trigger] c.contains_key(k),
        forall|k: u64| #[trigger] c.contains_key(k) && k <= from ==> k <= first,
        c.contains_key(first) && first <= from || first == 0 && forall|k: u64| #[trigger]
            c.contains_key(k) ==> k > from,
    ensures
        swept(c, from, to, first, bound) == chunks::without_range(c, from, to),
        swept_offsets(c, from, to, first, bound) == chunks::stored_between(
            c,
            from as int,
            to as int,
        ),
{
    let is = swept(c, from, to, first, bound);
    let goal = chunks::without_range(c, from, to);
    assert forall|j: u64, x: int| #[trigger]
        chunks::in_chunk(c, j, x) && from <= x <= to implies first <= j < bound by {
        assert(c.contains_key(j));
        if j < first {
            assert(c.contains_key(first));
        }
    }
    assert forall|k: u64| is.contains_key(k) <==> goal.contains_key(k) by {
        if k == to {
        } else if c.contains_key(k) {
            if k < from {
                assert(c.contains_key(first));
                if k < first {
                    assert(k + c[k].len() <= first);
                } else {
                    assert(k == first);
                }
            }
        }
    }
    assert forall|k: u64| is.contains_key(k) implies is[k] == goal[k] by {
        if k != to && k < from && k < first {
            assert(k + c[k].len() <= first);
        } else if k != to && k < from {
            assert(k == first);
            if k + c[k].len() == from {
                assert(c[k].take(from - k) =~= c[k]);
            }
        }
    }
    assert(is =~= goal);
    assert(swept_offsets(c, from, to, first, bound) =~= chunks::stored_between(
        c,
        from as int,
        to as int,
    ));
}

} // verus!
