//! Little-endian 16-bit fields and zero padding: the primitives every record
//! layout in this crate is built from.

use vstd::prelude::*;

verus! {

/// The 16-bit value stored as the little-endian byte pair `(b0, b1)`.
pub open spec fn u16_le(b0: u8, b1: u8) -> u16 {
    (b0 + 256 * b1) as u16
}

/// Low byte of a 16-bit value in little-endian order.
pub open spec fn lo_byte(v: u16) -> u8 {
    (v % 256) as u8
}

/// High byte of a 16-bit value in little-endian order.
pub open spec fn hi_byte(v: u16) -> u8 {
    (v / 256) as u8
}

/// A run of `n` zero bytes (reserved regions and trailing padding).
pub open spec fn zero_seq(n: nat) -> Seq<u8> {
    Seq::new(n, |i: int| 0u8)
}

/// Splitting a value into its bytes and reassembling them is the identity.
pub proof fn lemma_u16_le_of_bytes(v: u16)
    ensures
        u16_le(lo_byte(v), hi_byte(v)) == v,
{
    assert(u16_le(lo_byte(v), hi_byte(v)) == v) by (nonlinear_arith);
}

/// Reassembling two bytes and splitting the value again yields the same bytes.
pub proof fn lemma_bytes_of_u16_le(b0: u8, b1: u8)
    ensures
        lo_byte(u16_le(b0, b1)) == b0,
        hi_byte(u16_le(b0, b1)) == b1,
{
    assert(lo_byte(u16_le(b0, b1)) == b0) by (nonlinear_arith);
    assert(hi_byte(u16_le(b0, b1)) == b1) by (nonlinear_arith);
}

/// Reads the little-endian 16-bit field at the start of `slice`.
pub fn read_u16(slice: &[u8]) -> (v: u16)
    requires
        slice@.len() >= 2,
    ensures
        v == u16_le(slice@[0], slice@[1]),
{
    slice[0] as u16 + 256 * (slice[1] as u16)
}

/// Reads the single byte at the start of `slice`.
pub fn read_u8(slice: &[u8]) -> (v: u8)
    requires
        slice@.len() >= 1,
    ensures
        v == slice@[0],
{
    slice[0]
}

/// Writes `value` in little-endian order into `bytes[at]` and `bytes[at + 1]`.
pub fn write_u16(value: u16, bytes: &mut Vec<u8>, at: usize)
    requires
        at + 2 <= old(bytes)@.len(),
    ensures
        final(bytes)@ == old(bytes)@.update(at as int, lo_byte(value)).update(
            at + 1,
            hi_byte(value),
        ),
{
    let n = bytes.len();
    assert(at + 2 <= n);
    bytes[at] = (value % 256) as u8;
    bytes[at + 1] = (value / 256) as u8;
}

/// Appends zero bytes to `bytes` until it is `n` bytes long.
pub fn zero_pad_to(bytes: &mut Vec<u8>, n: usize)
    requires
        old(bytes)@.len() <= n,
    ensures
        final(bytes)@ == old(bytes)@ + zero_seq((n - old(bytes)@.len()) as nat),
{
    let ghost orig = bytes@;
    while bytes.len() < n
        invariant
            orig.len() <= bytes@.len() <= n,
            bytes@ == orig + zero_seq((bytes@.len() - orig.len()) as nat),
        decreases n - bytes@.len(),
    {
        bytes.push(0);
        assert(bytes@ =~= orig + zero_seq((bytes@.len() - orig.len()) as nat));
    }
}

} // verus!
