//! Maps from offsets to pieces of memory.

use std::collections::BTreeMap;

use bytes::Bytes;
use vstd::prelude::*;
use vstd::std_specs::iter::IteratorSpec;

verus! {

/// `u64` keys are ordered as a `BTreeMap` needs it.
proof fn lemma_u64_keys()
    ensures
        vstd::laws_cmp::obeys_cmp::<u64>(),
        vstd::std_specs::btree::key_obeys_cmp_spec::<u64>(),
{
    broadcast use vstd::laws_cmp::group_laws_cmp;

}

/// The keys of a map come in ascending order.
proof fn lemma_keys_ascend(data: &BTreeMap<u64, Bytes>)
    ensures
        forall|i: int, j: int|
            0 <= i < j < vstd::std_specs::btree::spec_keys_iter(data).remaining().len()
                ==> *vstd::std_specs::btree::spec_keys_iter(data).remaining()[i]
                < *vstd::std_specs::btree::spec_keys_iter(data).remaining()[j],
        vstd::std_specs::btree::spec_keys_iter(data).remaining().unref().to_set() == data@.dom(),
{
    broadcast use vstd::laws_cmp::group_laws_cmp;

    let s = vstd::std_specs::btree::spec_keys_iter(data).remaining();
    assert(vstd::laws_cmp::obeys_cmp::<&u64>());
    assert(vstd::std_specs::btree::increasing_seq(s));
    assert forall|i: int, j: int| 0 <= i < j < s.len() implies *s[i] < *s[j] by {
        assert(vstd::std_specs::cmp::OrdSpec::cmp_spec(&s[i], &s[j]) is Less);
    }
}

/// The keys of `data` in `from..=to`, in ascending order.
pub(crate) fn keys_between(data: &BTreeMap<u64, Bytes>, from: u64, to: u64) -> (keys: Vec<u64>)
    ensures
        forall|i: int|
            0 <= i < keys@.len() ==> data@.contains_key(#[trigger] keys@[i]) && from <= keys@[i]
                <= to,
        forall|i: int, j: int| 0 <= i < j < keys@.len() ==> keys@[i] < keys@[j],
        forall|k: u64| #[trigger]
            data@.contains_key(k) && from <= k <= to ==> keys@.contains(k),
{
    proof {
        lemma_u64_keys();
        lemma_keys_ascend(data);
    }
    let mut keys: Vec<u64> = Vec::new();
    for key in it: data.keys()
        invariant
            it.seq().unref().to_set() == data@.dom(),
            forall|i: int, j: int| 0 <= i < j < it.seq().len() ==> *it.seq()[i] < *it.seq()[j],
            forall|i: int|
                0 <= i < keys@.len() ==> data@.contains_key(#[trigger] keys@[i]) && from
                    <= keys@[i] <= to,
            forall|i: int, j: int| 0 <= i < j < keys@.len() ==> keys@[i] < keys@[j],
            forall|i: int|
                0 <= i < it.index() && from <= *#[trigger] it.seq()[i] <= to ==> keys@.contains(
                    *it.seq()[i],
                ),
            it.index() < it.seq().len() ==> forall|i: int|
                0 <= i < keys@.len() ==> keys@[i] < *it.seq()[it.index()],
    {
        let ghost before = keys@;
        proof {
            let all = it.seq().unref();
            assert(all[it.index()] == *key);
            assert(all.to_set().contains(*key));
        }
        if from <= *key && *key <= to {
            keys.push(*key);
            proof {
                assert forall|k: u64| before.contains(k) implies keys@.contains(k) by {
                    let i = choose|i: int| 0 <= i < before.len() && before[i] == k;
                    assert(keys@[i] == k);
                }
                assert(keys@[keys@.len() - 1] == *key);
            }
        }
    }
    proof {
        let seq = vstd::std_specs::btree::spec_keys_iter(data).remaining();
        assert forall|k: u64| #[trigger] data@.contains_key(k) && from <= k
            <= to implies keys@.contains(k) by {
            assert(seq.unref().to_set().contains(k));
            let i = choose|i: int| 0 <= i < seq.unref().len() && seq.unref()[i] == k;
            assert(*seq[i] == k);
        }
    }
    keys
}

/// The greatest key of `data` that is not above `x`.
pub(crate) fn last_key_by(data: &BTreeMap<u64, Bytes>, x: u64) -> (r: Option<u64>)
    ensures
        r is None ==> forall|k: u64| #[trigger] data@.contains_key(k) ==> k > x,
        r matches Some(key) ==> {
            &&& data@.contains_key(key)
            &&& key <= x
            &&& forall|k: u64| #[trigger] data@.contains_key(k) && k <= x ==> k <= key
        },
{
    let keys = keys_between(data, 0, x);
    if keys.len() == 0 {
        None
    } else {
        Some(keys[keys.len() - 1])
    }
}

/// Takes the piece at `key` out of `data`.
pub(crate) fn take_piece(data: &mut BTreeMap<u64, Bytes>, key: u64) -> (piece: Bytes)
    requires
        old(data)@.contains_key(key),
    ensures
        piece == old(data)@[key],
        final(data)@ == old(data)@.remove(key),
{
    proof {
        lemma_u64_keys();
    }
    data.remove(&key).unwrap()
}

/// Puts a piece into `data`.
pub(crate) fn put_piece(data: &mut BTreeMap<u64, Bytes>, key: u64, piece: Bytes)
    ensures
        final(data)@ == old(data)@.insert(key, piece),
{
    proof {
        lemma_u64_keys();
    }
    data.insert(key, piece);
}

/// The piece at `key`.
pub(crate) fn piece_at(data: &BTreeMap<u64, Bytes>, key: u64) -> (piece: &Bytes)
    requires
        data@.contains_key(key),
    ensures
        *piece == data@[key],
{
    proof {
        lemma_u64_keys();
    }
    data.get(&key).unwrap()
}

} // verus!
