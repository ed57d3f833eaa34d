use vstd::prelude::*;

verus! {

/// The four little-endian bytes of `x`.
pub open spec fn le_bytes(x: u32) -> Seq<u8> {
    seq![(x & 0xFF) as u8, ((x >> 8) & 0xFF) as u8, ((x >> 16) & 0xFF) as u8, ((x >> 24) & 0xFF) as u8]
}

/// The number whose little-endian bytes are the first four of `b`.
pub open spec fn le_value(b: Seq<u8>) -> u32
    recommends
        b.len() >= 4,
{
    (b[0] as u32 + ((b[1] as u32) << 8) + ((b[2] as u32) << 16) + ((b[3] as u32) << 24)) as u32
}

pub proof fn lemma_le_round_trip(x: u32)
    ensures
        le_value(le_bytes(x)) == x,
{
    let b0 = (x & 0xFF) as u8;
    let b1 = ((x >> 8) & 0xFF) as u8;
    let b2 = ((x >> 16) & 0xFF) as u8;
    let b3 = ((x >> 24) & 0xFF) as u8;
    assert(b0 as u32 + ((b1 as u32) << 8) + ((b2 as u32) << 16) + ((b3 as u32) << 24) == x) by (bit_vector)
        requires
            b0 == (x & 0xFF) as u8,
            b1 == ((x >> 8) & 0xFF) as u8,
            b2 == ((x >> 16) & 0xFF) as u8,
            b3 == ((x >> 24) & 0xFF) as u8,
    ;
}

/// The little-endian bytes of `x`.
pub fn to_4u8(x: u32) -> (r: [u8; 4])
    ensures
        r@ == le_bytes(x),
{
    let r = [(x & 0xFF) as u8, ((x >> 8) & 0xFF) as u8, ((x >> 16) & 0xFF) as u8, ((x >> 24) & 0xFF) as u8];
    assert(r@ =~= le_bytes(x));
    r
}

/// The number that the first four bytes of `x` encode, little-endian; `None`
/// when there are fewer than four.
pub fn to_u32(x: &[u8]) -> (r: Option<u32>)
    ensures
        x@.len() < 4 ==> r is None,
        x@.len() >= 4 ==> r == Some(le_value(x@)),
{
    if x.len() < 4 {
        return None;
    }
    let b0 = x[0];
    let b1 = x[1];
    let b2 = x[2];
    let b3 = x[3];
    assert(b0 as u32 + ((b1 as u32) << 8) + ((b2 as u32) << 16) + ((b3 as u32) << 24) <= 0xFFFF_FFFF) by (bit_vector);
    Some(b0 as u32 + ((b1 as u32) << 8) + ((b2 as u32) << 16) + ((b3 as u32) << 24))
}

} // verus!
