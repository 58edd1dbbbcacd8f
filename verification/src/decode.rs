//! Numbers out of raw bytes, as a fuzzer hands them over: little-endian
//! `u32` values, with or without a leading 16-bit index.

use byteorder::{ByteOrder, LittleEndian};
use vstd::prelude::*;

verus! {

/// The number that the two bytes of `bytes` from `i` on spell, least
/// significant byte first.
pub open spec fn u16_at(bytes: Seq<u8>, i: int) -> int {
    bytes[i] + 256 * bytes[i + 1]
}

/// The number that the four bytes of `bytes` from `i` on spell, least
/// significant byte first.
pub open spec fn u32_at(bytes: Seq<u8>, i: int) -> int {
    bytes[i] + 256 * bytes[i + 1] + 65536 * bytes[i + 2] + 16777216 * bytes[i + 3]
}

/// `byteorder::LittleEndian::read_u16` reads the first two bytes of `buf` as
/// a little-endian number. It panics on fewer than two bytes, so there must
/// be two.
pub assume_specification[ <LittleEndian as ByteOrder>::read_u16 ](buf: &[u8]) -> (r: u16)
    requires
        buf@.len() >= 2,
    ensures
        r == u16_at(buf@, 0),
;

/// `byteorder::LittleEndian::read_u32_into` fills `dst` with the
/// little-endian numbers that `src` spells, four bytes each. It panics
/// unless `src` has exactly four bytes for each place in `dst`.
pub assume_specification[ <LittleEndian as ByteOrder>::read_u32_into ](
    src: &[u8],
    dst: &mut [u32],
)
    requires
        src@.len() == 4 * old(dst)@.len(),
    ensures
        final(dst)@.len() == old(dst)@.len(),
        forall|i: int|
            0 <= i < final(dst)@.len() ==> #[trigger] final(dst)@[i] == u32_at(src@, 4 * i),
;

/// The little-endian `u32` values in `data`: one for every four bytes, the
/// bytes left over ignored.
pub fn read_u32s(data: &[u8]) -> (vec: Vec<u32>)
    ensures
        vec@.len() == data@.len() / 4,
        forall|i: int| 0 <= i < vec@.len() ==> #[trigger] vec@[i] == u32_at(data@, 4 * i),
{
    let u32s = data.len() / 4;
    let mut vec = vec![0u32; u32s];
    LittleEndian::read_u32_into(&data[0..u32s * 4], vec.as_mut_slice());

    vec
}

/// A sequence of `u32` values and a position in it, out of `data`: the first
/// two bytes are the position, a little-endian `u16`, and the rest are the
/// values as `read_u32s` reads them. There is no result where `data` has
/// fewer than two bytes or the position is not within the sequence.
pub fn read_u32s_k(data: &[u8]) -> (r: Option<(Vec<u32>, usize)>)
    ensures
        match r {
            Some((vec, k)) => {
                &&& data@.len() >= 2
                &&& k == u16_at(data@, 0)
                &&& k < vec@.len() == (data@.len() - 2) / 4
                &&& forall|i: int|
                    0 <= i < vec@.len() ==> #[trigger] vec@[i] == u32_at(data@, 2 + 4 * i)
            },
            None => data@.len() < 2 || u16_at(data@, 0) >= (data@.len() - 2) / 4,
        },
{
    if data.len() < 2 {
        return None
    }
    let (first, rest) = data.split_at(2);
    let k = LittleEndian::read_u16(first) as usize;
    let vec = read_u32s(rest);
    if k >= vec.len() {
        return None
    }
    Some((vec, k))
}

} // verus!
