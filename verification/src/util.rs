use vstd::prelude::*;

verus! {

/// The number that two bytes encode, most significant byte first.
pub open spec fn be_value(hi: u8, lo: u8) -> int {
    hi as int * 256 + lo as int
}

/// Reads a big-endian `u16` from the first two bytes of `b`.
pub fn bytes_to_u16(b: &[u8]) -> (r: u16)
    requires
        b@.len() >= 2,
    ensures
        r as int == be_value(b@[0], b@[1]),
{
    let hi: u8 = b[0];
    let lo: u8 = b[1];
    let r: u16 = ((hi as u16) << 8) | (lo as u16);
    assert(r == hi as u16 * 256 + lo as u16) by (bit_vector)
        requires
            r == ((hi as u16) << 8) | (lo as u16),
    ;
    r
}

/// Writes `d` as two bytes, most significant byte first.
pub fn u16_to_bytes(d: u16) -> (r: [u8; 2])
    ensures
        r@[0] as int == d as int / 256,
        r@[1] as int == d as int % 256,
{
    let hi: u8 = (d >> 8) as u8;
    let lo: u8 = (d & 0xff) as u8;
    assert(hi == d / 256 && lo == d % 256) by (bit_vector)
        requires
            hi == (d >> 8) as u8,
            lo == (d & 0xff) as u8,
    ;
    [hi, lo]
}

/// Reading back what `u16_to_bytes` wrote gives the number that was written.
pub proof fn lemma_decode_encode(d: u16)
    ensures
        be_value((d as int / 256) as u8, (d as int % 256) as u8) == d,
{
}

/// Writing the number that two bytes encode gives back those two bytes.
pub proof fn lemma_encode_decode(hi: u8, lo: u8)
    ensures
        be_value(hi, lo) <= u16::MAX,
        be_value(hi, lo) / 256 == hi,
        be_value(hi, lo) % 256 == lo,
{
}

} // verus!
