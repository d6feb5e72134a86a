//! Fixed-width little-endian framing shared by every encoder of the crate.

use vstd::bytes::{
    lemma_auto_spec_u64_to_from_le_bytes, spec_u64_from_le_bytes, spec_u64_to_le_bytes,
    u64_from_le_bytes, u64_to_le_bytes,
};
use vstd::prelude::*;
use vstd::slice::slice_subrange;

verus! {

/// The eight bytes of `x`, least significant first.
pub open spec fn u64_bytes(x: u64) -> Seq<u8> {
    spec_u64_to_le_bytes(x)
}

/// The number whose little-endian bytes start at `at`.
pub open spec fn u64_at(b: Seq<u8>, at: int) -> u64 {
    spec_u64_from_le_bytes(b.subrange(at, at + 8))
}

/// Reading back what was written gives the number that was written.
pub proof fn lemma_u64_round_trip(x: u64)
    ensures
        u64_bytes(x).len() == 8,
        spec_u64_from_le_bytes(u64_bytes(x)) == x,
{
    lemma_auto_spec_u64_to_from_le_bytes();
}

/// Writing what was read gives the bytes that were read.
pub proof fn lemma_bytes_round_trip(s: Seq<u8>)
    requires
        s.len() == 8,
    ensures
        u64_bytes(spec_u64_from_le_bytes(s)) == s,
{
    lemma_auto_spec_u64_to_from_le_bytes();
}


/// Appends the little-endian bytes of `x`.
pub fn put_u64(out: &mut Vec<u8>, x: u64)
    ensures
        final(out)@ == old(out)@ + u64_bytes(x),
        final(out)@.len() == old(out)@.len() + 8,
{
    let mut b: Vec<u8> = u64_to_le_bytes(x);
    out.append(&mut b);
}

/// Reads the number stored at `at`.
pub fn get_u64(b: &[u8], at: usize) -> (x: u64)
    requires
        at + 8 <= b@.len(),
    ensures
        x == u64_at(b@, at as int),
{
    let n: usize = b.len();
    assert(at + 8 <= n);
    u64_from_le_bytes(slice_subrange(b, at, at + 8))
}

/// Appends a copy of `src[from..]`.
pub fn put_tail(out: &mut Vec<u8>, src: &[u8], from: usize)
    requires
        from <= src@.len(),
    ensures
        final(out)@ == old(out)@ + src@.skip(from as int),
{
    let n: usize = src.len();
    let mut i: usize = from;
    let ghost base = out@;
    assert(out@ =~= base + src@.subrange(from as int, i as int));
    while i < n
        invariant
            n == src@.len(),
            from <= i <= n,
            out@ == base + src@.subrange(from as int, i as int),
        decreases n - i,
    {
        out.push(src[i]);
        assert(src@.subrange(from as int, i + 1) =~= src@.subrange(from as int, i as int).push(
            src@[i as int],
        ));
        i = i + 1;
    }
    assert(src@.subrange(from as int, n as int) =~= src@.skip(from as int));
}

/// A copy of a byte string.
pub fn copy_bytes(src: &Vec<u8>) -> (out: Vec<u8>)
    ensures
        out@ == src@,
{
    let mut out: Vec<u8> = Vec::new();
    put_tail(&mut out, src.as_slice(), 0);
    assert(src@.skip(0) =~= src@);
    out
}

/// Whether two byte strings are equal.
pub fn same_bytes(a: &Vec<u8>, b: &Vec<u8>) -> (r: bool)
    ensures
        r == (a@ == b@),
{
    let n: usize = a.len();
    if n != b.len() {
        return false;
    }
    let mut i: usize = 0;
    while i < n
        invariant
            n == a@.len(),
            n == b@.len(),
            i <= n,
            forall|k: int| 0 <= k < i ==> a@[k] == b@[k],
        decreases n - i,
    {
        if a[i] != b[i] {
            return false;
        }
        i = i + 1;
    }
    assert(a@ =~= b@);
    true
}

} // verus!
