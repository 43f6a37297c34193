//! Big-endian integer readers over an in-memory byte buffer.
//!
//! Every multi-byte integer in the container format is stored big-endian.
//! The spec functions below give the mathematical value of such a field at
//! a given offset; the exec readers return exactly that value.

use vstd::prelude::*;

verus! {

/// The value of the big-endian `u16` stored in `b` at offset `off`.
pub open spec fn be_u16_at(b: Seq<u8>, off: int) -> int {
    (b[off] as int) * 0x100 + (b[off + 1] as int)
}

/// The value of the big-endian `u32` stored in `b` at offset `off`.
pub open spec fn be_u32_at(b: Seq<u8>, off: int) -> int {
    (b[off] as int) * 0x1000000 + (b[off + 1] as int) * 0x10000 + (b[off + 2] as int) * 0x100
        + (b[off + 3] as int)
}

/// Reads the big-endian `u16` at `off`.
pub fn read_be_u16(b: &[u8], off: usize) -> (r: u16)
    requires
        off + 2 <= b@.len(),
    ensures
        r == be_u16_at(b@, off as int),
{
    (b[off] as u16) * 0x100 + (b[off + 1] as u16)
}

/// Reads the big-endian `u32` at `off`.
pub fn read_be_u32(b: &[u8], off: usize) -> (r: u32)
    requires
        off + 4 <= b@.len(),
    ensures
        r == be_u32_at(b@, off as int),
{
    (b[off] as u32) * 0x1000000 + (b[off + 1] as u32) * 0x10000 + (b[off + 2] as u32) * 0x100
        + (b[off + 3] as u32)
}

/// Byte-for-byte equality of two slices.
pub fn bytes_eq(a: &[u8], b: &[u8]) -> (r: bool)
    ensures
        r == (a@ == b@),
{
    if a.len() != b.len() {
        assert(a@ != b@) by {
            assert(a@.len() != b@.len());
        }
        return false;
    }
    let n = a.len();
    let mut i: usize = 0;
    while i < n
        invariant
            n == a@.len() == b@.len(),
            i <= n,
            forall|j: int| 0 <= j < i ==> a@[j] == b@[j],
        decreases n - i,
    {
        if a[i] != b[i] {
            return false;
        }
        i += 1;
    }
    proof {
        assert(a@ =~= b@);
    }
    true
}

} // verus!
