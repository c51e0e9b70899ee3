//! The fields of the flash map as they lie in the image: little-endian
//! integers and names of fixed length.
use vstd::prelude::*;
use vstd::slice::slice_subrange;
use vstd::string::StringExecFns;
use vstd::string::StringSliceAdditionalSpecFns;
use vstd::utf8::{decode_utf8, encode_utf8_decode_utf8, valid_utf8};

verus! {

/// The 16-bit integer whose two bytes lie at `at`, least significant first.
pub open spec fn le_u16(bytes: Seq<u8>, at: int) -> int {
    bytes[at] + 0x100 * bytes[at + 1]
}

/// The 32-bit integer whose four bytes lie at `at`, least significant
/// first.
pub open spec fn le_u32(bytes: Seq<u8>, at: int) -> int {
    bytes[at] + 0x100 * bytes[at + 1] + 0x1_0000 * bytes[at + 2] + 0x100_0000 * bytes[at + 3]
}

/// The 64-bit integer whose eight bytes lie at `at`, least significant
/// first.
pub open spec fn le_u64(bytes: Seq<u8>, at: int) -> int {
    le_u32(bytes, at) + 0x1_0000_0000 * le_u32(bytes, at + 4)
}

/// Reads the 16-bit integer at `at`.
pub(crate) fn read_u16(data: &[u8], at: usize) -> (r: u16)
    requires
        at + 2 <= data@.len(),
    ensures
        r == le_u16(data@, at as int),
{
    data[at] as u16 + 0x100 * (data[at + 1] as u16)
}

/// Reads the 32-bit integer at `at`.
pub(crate) fn read_u32(data: &[u8], at: usize) -> (r: u32)
    requires
        at + 4 <= data@.len(),
    ensures
        r == le_u32(data@, at as int),
{
    data[at] as u32 + 0x100 * (data[at + 1] as u32) + 0x1_0000 * (data[at + 2] as u32) + 0x100_0000 * (
    data[at + 3] as u32)
}

/// Reads the 64-bit integer at `at`.
pub(crate) fn read_u64(data: &[u8], at: usize) -> (r: u64)
    requires
        at + 8 <= data@.len(),
    ensures
        r == le_u64(data@, at as int),
{
    let len: usize = data.len();
    assert(at + 8 <= len);
    read_u32(data, at) as u64 + 0x1_0000_0000 * (read_u32(data, at + 4) as u64)
}

/// Where the name in `field` ends, looking from `from` on: at the first
/// zero byte, or at the end of the field if it has none.
pub open spec fn name_end(field: Seq<u8>, from: int) -> int
    decreases field.len() - from,
{
    if from < 0 || from >= field.len() {
        field.len() as int
    } else if field[from] == 0 {
        from
    } else {
        name_end(field, from + 1)
    }
}

/// The bytes of the name in `field`: those before the first zero byte, or
/// all of them.
pub open spec fn name_bytes(field: Seq<u8>) -> Seq<u8> {
    field.take(name_end(field, 0))
}

/// The name in `field`: what its bytes say in UTF-8, and the empty name
/// where they are not UTF-8.
pub open spec fn name_text(field: Seq<u8>) -> Seq<char> {
    if valid_utf8(name_bytes(field)) {
        decode_utf8(name_bytes(field))
    } else {
        seq![]
    }
}

/// `std::str::from_utf8`: the string slice over these very bytes if they
/// are valid UTF-8, and nothing if they are not.
#[verifier::external_body]
fn text_of(bytes: &[u8]) -> (r: Option<&str>)
    ensures
        r is Some <==> valid_utf8(bytes@),
        r matches Some(text) ==> text.spec_bytes() == bytes@,
{
    std::str::from_utf8(bytes).ok()
}

/// Decodes the name in `field`.
pub fn decode_name(field: &[u8]) -> (r: String)
    ensures
        r@ == name_text(field@),
{
    let mut end: usize = 0;
    while end < field.len() && field[end] != 0
        invariant
            end <= field@.len(),
            name_end(field@, 0) == name_end(field@, end as int),
        decreases field@.len() - end,
    {
        end = end + 1;
    }
    let bytes = slice_subrange(field, 0, end);
    assert(bytes@ == name_bytes(field@));
    match text_of(bytes) {
        Some(text) => {
            proof {
                encode_utf8_decode_utf8(text@);
            }
            String::from_str(text)
        },
        None => String::new(),
    }
}

} // verus!
