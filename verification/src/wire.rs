//! Big-endian integer reads over byte buffers.

use vstd::prelude::*;

verus! {

/// The big-endian 16-bit value of two bytes.
pub open spec fn be16(hi: u8, lo: u8) -> int {
    hi as int * 256 + lo as int
}

/// The big-endian 32-bit value of four bytes.
pub open spec fn be32(b0: u8, b1: u8, b2: u8, b3: u8) -> int {
    ((b0 as int * 256 + b1 as int) * 256 + b2 as int) * 256 + b3 as int
}

/// Reads the big-endian `u16` stored at `data[pos]`, `data[pos + 1]`.
pub fn read_be16(data: &[u8], pos: usize) -> (v: u16)
    requires
        pos + 2 <= data@.len(),
    ensures
        v as int == be16(data@[pos as int], data@[pos as int + 1]),
{
    let hi = data[pos];
    let lo = data[pos + 1];
    let v = ((hi as u16) << 8) | (lo as u16);
    assert(v == hi as int * 256 + lo as int) by (bit_vector)
        requires
            v == ((hi as u16) << 8) | (lo as u16),
    ;
    v
}

} // verus!
