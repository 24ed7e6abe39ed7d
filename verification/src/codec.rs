use vstd::prelude::*;

verus! {

// Little-endian encodings of the fixed-width integers that the table-page
// header uses. The byte layout is part of the on-disk format, so the
// encoders and decoders are verified against these spec functions.

pub open spec fn u16_le(x: u16) -> Seq<u8> {
    seq![(x & 0xff) as u8, ((x >> 8) & 0xff) as u8]
}

pub open spec fn u16_of_le(b0: u8, b1: u8) -> u16 {
    (b0 as u16) | ((b1 as u16) << 8)
}

pub open spec fn u32_le(x: u32) -> Seq<u8> {
    seq![
        (x & 0xff) as u8,
        ((x >> 8) & 0xff) as u8,
        ((x >> 16) & 0xff) as u8,
        ((x >> 24) & 0xff) as u8,
    ]
}

pub open spec fn u32_of_le(b0: u8, b1: u8, b2: u8, b3: u8) -> u32 {
    (b0 as u32) | ((b1 as u32) << 8) | ((b2 as u32) << 16) | ((b3 as u32) << 24)
}

pub fn u16_le_byte(x: u16, i: usize) -> (r: u8)
    requires
        i < 2,
    ensures
        r == u16_le(x)[i as int],
{
    if i == 0 {
        (x & 0xff) as u8
    } else {
        ((x >> 8) & 0xff) as u8
    }
}

pub fn u32_le_byte(x: u32, i: usize) -> (r: u8)
    requires
        i < 4,
    ensures
        r == u32_le(x)[i as int],
{
    if i == 0 {
        (x & 0xff) as u8
    } else if i == 1 {
        ((x >> 8) & 0xff) as u8
    } else if i == 2 {
        ((x >> 16) & 0xff) as u8
    } else {
        ((x >> 24) & 0xff) as u8
    }
}

pub fn u16_from_le(b0: u8, b1: u8) -> (r: u16)
    ensures
        r == u16_of_le(b0, b1),
{
    (b0 as u16) | ((b1 as u16) << 8)
}

pub fn u32_from_le(b0: u8, b1: u8, b2: u8, b3: u8) -> (r: u32)
    ensures
        r == u32_of_le(b0, b1, b2, b3),
{
    (b0 as u32) | ((b1 as u32) << 8) | ((b2 as u32) << 16) | ((b3 as u32) << 24)
}

pub proof fn lemma_u16_le_roundtrip(x: u16)
    ensures
        u16_of_le(u16_le(x)[0], u16_le(x)[1]) == x,
{
    assert(((x & 0xff) as u8 as u16) | ((((x >> 8) & 0xff) as u8 as u16) << 8) == x)
        by (bit_vector);
}

pub proof fn lemma_u32_le_roundtrip(x: u32)
    ensures
        u32_of_le(u32_le(x)[0], u32_le(x)[1], u32_le(x)[2], u32_le(x)[3]) == x,
{
    assert(((x & 0xff) as u8 as u32) | ((((x >> 8) & 0xff) as u8 as u32) << 8)
        | ((((x >> 16) & 0xff) as u8 as u32) << 16) | ((((x >> 24) & 0xff) as u8 as u32) << 24)
        == x) by (bit_vector);
}

/// Relies on `bincode::serialize` with its default configuration
/// (fixed-width integers, little-endian): a `u32` encodes as exactly its
/// four little-endian bytes, and encoding into a `Vec` cannot fail.
#[verifier::external_body]
pub fn bincode_encode_page_id(pid: u32) -> (r: Vec<u8>)
    ensures
        r@ == u32_le(pid),
{
    bincode::serialize(&pid).expect("encoding a u32 into a Vec does not fail")
}

/// Relies on `bincode::deserialize` with its default configuration: a `u32`
/// decodes from the first four bytes of the input, little-endian, and
/// trailing bytes are permitted.
#[verifier::external_body]
pub fn bincode_decode_page_id(bytes: &[u8]) -> (r: u32)
    requires
        bytes@.len() >= 4,
    ensures
        r == u32_of_le(bytes@[0], bytes@[1], bytes@[2], bytes@[3]),
{
    bincode::deserialize(bytes).expect("four bytes decode to a u32")
}

} // verus!
