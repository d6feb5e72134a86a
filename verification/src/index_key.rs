//! Keys under which entries are persisted, and the order the storage engine
//! must sort them by.

use crate::clock::Index;
use crate::wire::{u64_at, u64_bytes};
use std::cmp::Ordering;
use vstd::prelude::*;

verus! {

/// Calls `bincode::serialize` on a `u64`. With the configuration that this
/// function fixes (fixed-width integers, little endian) the result is the eight
/// bytes of the number, least significant first.
#[verifier::external_body]
fn encode_index(i: Index) -> (out: Vec<u8>)
    ensures
        out@ == u64_bytes(i),
{
    bincode::serialize(&i).unwrap()
}

/// Calls `bincode::deserialize` for a `u64`. It reads the first eight bytes as a
/// little-endian number and ignores what follows; shorter input makes it fail,
/// so such input is excluded.
#[verifier::external_body]
fn decode_index(s: &[u8]) -> (i: Index)
    requires
        s@.len() >= 8,
    ensures
        i == u64_at(s@, 0),
{
    bincode::deserialize::<u64>(s).unwrap()
}

/// The storage key of the entry at index `i`.
pub fn index_key(i: Index) -> (key: Vec<u8>)
    ensures
        key@ == u64_bytes(i),
        key@.len() == 8,
        u64_at(key@, 0) == i,
{
    let key = encode_index(i);
    proof {
        crate::wire::lemma_u64_round_trip(i);
        assert(key@.subrange(0, 8) =~= key@);
    }
    key
}

/// The index that a storage key stands for; `None` when the key is too short.
pub fn key_index(key: &[u8]) -> (r: Option<Index>)
    ensures
        r == if key@.len() >= 8 {
            Some(u64_at(key@, 0))
        } else {
            None
        },
{
    if key.len() >= 8 {
        Some(decode_index(key))
    } else {
        None
    }
}

/// Orders two storage keys by the indexes they stand for, so that the storage
/// engine walks entries in log order.
pub fn comparator_fn(x: &[u8], y: &[u8]) -> (o: Ordering)
    requires
        x@.len() >= 8,
        y@.len() >= 8,
    ensures
        o == Ordering::Less <==> u64_at(x@, 0) < u64_at(y@, 0),
        o == Ordering::Equal <==> u64_at(x@, 0) == u64_at(y@, 0),
        o == Ordering::Greater <==> u64_at(x@, 0) > u64_at(y@, 0),
{
    let a: Index = decode_index(x);
    let b: Index = decode_index(y);
    if a < b {
        Ordering::Less
    } else if a == b {
        Ordering::Equal
    } else {
        Ordering::Greater
    }
}

/// Orders two byte strings as storage keys when both are long enough to be
/// keys; `None` otherwise.
pub fn compare_keys(x: &[u8], y: &[u8]) -> (r: Option<Ordering>)
    ensures
        r.is_some() == (x@.len() >= 8 && y@.len() >= 8),
        r matches Some(o) ==> {
            &&& o == Ordering::Less <==> u64_at(x@, 0) < u64_at(y@, 0)
            &&& o == Ordering::Equal <==> u64_at(x@, 0) == u64_at(y@, 0)
            &&& o == Ordering::Greater <==> u64_at(x@, 0) > u64_at(y@, 0)
        },
{
    if x.len() >= 8 && y.len() >= 8 {
        Some(comparator_fn(x, y))
    } else {
        None
    }
}

/// The comparator orders the keys of two indexes as the indexes themselves.
pub proof fn lemma_keys_order_as_indexes(i: Index, j: Index)
    ensures
        u64_at(u64_bytes(i), 0) == i,
        u64_at(u64_bytes(j), 0) == j,
        (u64_at(u64_bytes(i), 0) < u64_at(u64_bytes(j), 0)) == (i < j),
{
    crate::wire::lemma_u64_round_trip(i);
    crate::wire::lemma_u64_round_trip(j);
    assert(u64_bytes(i).subrange(0, 8) =~= u64_bytes(i));
    assert(u64_bytes(j).subrange(0, 8) =~= u64_bytes(j));
}

} // verus!
