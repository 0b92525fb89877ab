//! Length-checked little-endian readers over byte slices.
//!
//! Every multi-byte integer on the wire and on disk is little-endian.
//! The readers here are the only place the crate turns raw bytes into
//! integers; all parsers state their results through the corresponding
//! `vstd::bytes` specification functions.

use vstd::bytes::*;
use vstd::prelude::*;
use vstd::slice::*;

verus! {

/// A buffer was too short for a requested read: `need` bytes were
/// required at the cursor, only `have` remained.
#[derive(Clone, Copy, Debug, PartialEq, Eq, Structural)]
pub struct ShortBuffer {
    pub need: usize,
    pub have: usize,
}

/// Split `s` after its first `n` bytes, or report how short it is.
pub fn try_split_at(s: &[u8], n: usize) -> (r: Result<(&[u8], &[u8]), ShortBuffer>)
    ensures
        match r {
            Ok((a, b)) => s@.len() >= n && a@ == s@.subrange(0, n as int) && b@ == s@.subrange(
                n as int,
                s@.len() as int,
            ),
            Err(e) => s@.len() < n && e.need == n && e.have == s@.len(),
        },
{
    if s.len() < n {
        Err(ShortBuffer { need: n, have: s.len() })
    } else {
        let a = slice_subrange(s, 0, n);
        let b = slice_subrange(s, n, s.len());
        Ok((a, b))
    }
}

/// Read the byte at `off`.
pub fn read_u8(s: &[u8], off: usize) -> (r: u8)
    requires
        off < s.len(),
    ensures
        r == s@[off as int],
{
    *slice_index_get(s, off)
}

/// Read a little-endian `u16` at `off`.
pub fn read_u16_le(s: &[u8], off: usize) -> (r: u16)
    requires
        off + 2 <= s.len(),
    ensures
        r == spec_u16_from_le_bytes(s@.subrange(off as int, off + 2)),
{
    let sub = slice_subrange(s, off, off + 2);
    u16_from_le_bytes(sub)
}

/// Read a little-endian `u32` at `off`.
pub fn read_u32_le(s: &[u8], off: usize) -> (r: u32)
    requires
        off + 4 <= s.len(),
    ensures
        r == spec_u32_from_le_bytes(s@.subrange(off as int, off + 4)),
{
    let sub = slice_subrange(s, off, off + 4);
    u32_from_le_bytes(sub)
}

/// Read a little-endian `u64` at `off`.
pub fn read_u64_le(s: &[u8], off: usize) -> (r: u64)
    requires
        off + 8 <= s.len(),
    ensures
        r == spec_u64_from_le_bytes(s@.subrange(off as int, off + 8)),
{
    let sub = slice_subrange(s, off, off + 8);
    u64_from_le_bytes(sub)
}

/// Every fixed-width little-endian field decodes and recomposes
/// exactly: reading an integer from its bytes and writing it back
/// yields the bytes, and writing then reading yields the integer, at
/// every width the wire formats use.
pub proof fn lemma_le_round_trip()
    ensures
        forall|s: Seq<u8>|
            s.len() == 2 ==> #[trigger] spec_u16_to_le_bytes(spec_u16_from_le_bytes(s)) == s,
        forall|x: u16| spec_u16_from_le_bytes(#[trigger] spec_u16_to_le_bytes(x)) == x,
        forall|s: Seq<u8>|
            s.len() == 4 ==> #[trigger] spec_u32_to_le_bytes(spec_u32_from_le_bytes(s)) == s,
        forall|x: u32| spec_u32_from_le_bytes(#[trigger] spec_u32_to_le_bytes(x)) == x,
        forall|s: Seq<u8>|
            s.len() == 8 ==> #[trigger] spec_u64_to_le_bytes(spec_u64_from_le_bytes(s)) == s,
        forall|x: u64| spec_u64_from_le_bytes(#[trigger] spec_u64_to_le_bytes(x)) == x,
        forall|s: Seq<u8>|
            s.len() == 16 ==> #[trigger] spec_u128_to_le_bytes(spec_u128_from_le_bytes(s)) == s,
        forall|x: u128| spec_u128_from_le_bytes(#[trigger] spec_u128_to_le_bytes(x)) == x,
{
    lemma_auto_spec_u16_to_from_le_bytes();
    lemma_auto_spec_u32_to_from_le_bytes();
    lemma_auto_spec_u64_to_from_le_bytes();
    lemma_auto_spec_u128_to_from_le_bytes();
    assert forall|x: u16| spec_u16_from_le_bytes(#[trigger] spec_u16_to_le_bytes(x)) == x by {
        assert(spec_u16_to_le_bytes(x).len() == 2);
    }
    assert forall|x: u32| spec_u32_from_le_bytes(#[trigger] spec_u32_to_le_bytes(x)) == x by {
        assert(spec_u32_to_le_bytes(x).len() == 4);
    }
    assert forall|x: u128| spec_u128_from_le_bytes(#[trigger] spec_u128_to_le_bytes(x)) == x by {
        assert(spec_u128_to_le_bytes(x).len() == 16);
    }
}

/// Compare two byte slices for equality.
pub fn slice_eq(a: &[u8], b: &[u8]) -> (r: bool)
    ensures
        r == (a@ == b@),
{
    if a.len() != b.len() {
        proof {
            assert(a@.len() != b@.len());
        }
        return false;
    }
    let mut i: usize = 0;
    while i < a.len()
        invariant
            i <= a.len(),
            a@.len() == b@.len(),
            forall|j: int| 0 <= j < i ==> a@[j] == b@[j],
        decreases a.len() - i,
    {
        if *slice_index_get(a, i) != *slice_index_get(b, i) {
            proof {
                assert(a@[i as int] != b@[i as int]);
            }
            return false;
        }
        i = i + 1;
    }
    proof {
        assert(a@ =~= b@);
    }
    true
}

/// Read a little-endian `u128` at `off`.
pub fn read_u128_le(s: &[u8], off: usize) -> (r: u128)
    requires
        off + 16 <= s.len(),
    ensures
        r == spec_u128_from_le_bytes(s@.subrange(off as int, off + 16)),
{
    let sub = slice_subrange(s, off, off + 16);
    u128_from_le_bytes(sub)
}

} // verus!
