//! The bytes of a flash map: what an image holds where it holds a given
//! flash map, and that decoding those bytes gives the flash map back.
use crate::flags::KNOWN_BITS;
use crate::fmap::{
    area_at, area_count, found, map_at_start, map_len, parsed, AreaView, FMapError, FMapView, AREA_SIZE,
    HEADER_SIZE, NAME_LEN, SIGNATURE, VERSION_MAJOR,
};
use crate::search::{has_signature, lemma_found_at_start};
use crate::wire::{le_u16, le_u32, le_u64, name_bytes, name_end, name_text};
use vstd::prelude::*;
use vstd::utf8::{encode_utf8, encode_utf8_decode_utf8, encode_utf8_valid_utf8};

verus! {

/// The `count` bytes of `value`, least significant first.
pub open spec fn le_bytes(value: int, count: nat) -> Seq<u8>
    decreases count,
{
    if count == 0 {
        seq![]
    } else {
        seq![(value % 0x100) as u8] + le_bytes(value / 0x100, (count - 1) as nat)
    }
}

/// The name fits a name field: it takes at most [`NAME_LEN`] bytes in
/// UTF-8, none of which is zero.
pub open spec fn fits_field(name: Seq<char>) -> bool {
    encode_utf8(name).len() <= NAME_LEN && forall|i: int|
        0 <= i < encode_utf8(name).len() ==> #[trigger] encode_utf8(name)[i] != 0
}

/// The name field of `name`: the name in UTF-8, then zero bytes to the end
/// of the field.
pub open spec fn name_field(name: Seq<char>) -> Seq<u8> {
    encode_utf8(name) + Seq::new((NAME_LEN - encode_utf8(name).len()) as nat, |i: int| 0u8)
}

/// The record of an area: offset, size, name and flags.
pub open spec fn area_record(area: AreaView) -> Seq<u8> {
    le_bytes(area.offset as int, 4) + le_bytes(area.size as int, 4) + name_field(area.name) + le_bytes(
        area.flags as int,
        2,
    )
}

/// The records of the first `upto` areas, one after the other.
pub open spec fn area_records(areas: Seq<AreaView>, upto: int) -> Seq<u8>
    decreases upto,
{
    if upto <= 0 {
        seq![]
    } else {
        area_records(areas, upto - 1) + area_record(areas[upto - 1])
    }
}

/// The header of a flash map: signature, versions, base, size, name and
/// number of areas.
pub open spec fn header(map: FMapView) -> Seq<u8> {
    SIGNATURE@ + seq![map.version_major, map.version_minor] + le_bytes(map.base as int, 8) + le_bytes(
        map.size as int,
        4,
    ) + name_field(map.name) + le_bytes(map.areas.len() as int, 2)
}

/// The bytes of a flash map: the header, then the records of the areas.
pub open spec fn encoded(map: FMapView) -> Seq<u8> {
    header(map) + area_records(map.areas, map.areas.len() as int)
}

/// The flash map can be written down: it has the major version that is
/// understood, no more areas than the header can count, names that fit
/// their fields, and no flag bit that names no flag.
pub open spec fn encodable(map: FMapView) -> bool {
    &&& map.version_major == VERSION_MAJOR
    &&& map.areas.len() <= 0xffff
    &&& fits_field(map.name)
    &&& forall|i: int|
        0 <= i < map.areas.len() ==> fits_field((#[trigger] map.areas[i]).name) && map.areas[i].flags
            & !KNOWN_BITS == 0
}

/// Two bytes written least significant first read back as the number.
pub proof fn lemma_le_u16(data: Seq<u8>, at: int, value: int)
    requires
        0 <= at,
        at + 2 <= data.len(),
        0 <= value < 0x1_0000,
        data.subrange(at, at + 2) == le_bytes(value, 2),
    ensures
        le_u16(data, at) == value,
{
    reveal_with_fuel(le_bytes, 3);
    let b = le_bytes(value, 2);
    assert(data[at] == data.subrange(at, at + 2)[0]);
    assert(data[at + 1] == data.subrange(at, at + 2)[1]);
    assert(b[0] == (value % 0x100) as u8);
    assert(b[1] == ((value / 0x100) % 0x100) as u8);
}

/// Four bytes written least significant first read back as the number.
pub proof fn lemma_le_u32(data: Seq<u8>, at: int, value: int)
    requires
        0 <= at,
        at + 4 <= data.len(),
        0 <= value < 0x1_0000_0000,
        data.subrange(at, at + 4) == le_bytes(value, 4),
    ensures
        le_u32(data, at) == value,
{
    reveal_with_fuel(le_bytes, 5);
    let b = le_bytes(value, 4);
    let part = data.subrange(at, at + 4);
    assert(data[at] == part[0]);
    assert(data[at + 1] == part[1]);
    assert(data[at + 2] == part[2]);
    assert(data[at + 3] == part[3]);
    let v1 = value / 0x100;
    let v2 = v1 / 0x100;
    let v3 = v2 / 0x100;
    assert(b[0] == (value % 0x100) as u8);
    assert(b[1] == (v1 % 0x100) as u8);
    assert(b[2] == (v2 % 0x100) as u8);
    assert(b[3] == (v3 % 0x100) as u8);
}

/// Eight bytes written least significant first read back as the number.
pub proof fn lemma_le_u64(data: Seq<u8>, at: int, value: int)
    requires
        0 <= at,
        at + 8 <= data.len(),
        0 <= value < 0x1_0000_0000_0000_0000,
        data.subrange(at, at + 8) == le_bytes(value, 8),
    ensures
        le_u64(data, at) == value,
{
    reveal_with_fuel(le_bytes, 9);
    let b = le_bytes(value, 8);
    let part = data.subrange(at, at + 8);
    assert(data[at] == part[0]);
    assert(data[at + 1] == part[1]);
    assert(data[at + 2] == part[2]);
    assert(data[at + 3] == part[3]);
    assert(data[at + 4] == part[4]);
    assert(data[at + 5] == part[5]);
    assert(data[at + 6] == part[6]);
    assert(data[at + 7] == part[7]);
    let v1 = value / 0x100;
    let v2 = v1 / 0x100;
    let v3 = v2 / 0x100;
    let v4 = v3 / 0x100;
    let v5 = v4 / 0x100;
    let v6 = v5 / 0x100;
    let v7 = v6 / 0x100;
    assert(b[0] == (value % 0x100) as u8);
    assert(b[1] == (v1 % 0x100) as u8);
    assert(b[2] == (v2 % 0x100) as u8);
    assert(b[3] == (v3 % 0x100) as u8);
    assert(b[4] == (v4 % 0x100) as u8);
    assert(b[5] == (v5 % 0x100) as u8);
    assert(b[6] == (v6 % 0x100) as u8);
    assert(b[7] == (v7 % 0x100) as u8);
}

/// A number is written in as many bytes as asked for.
pub proof fn lemma_le_bytes_len(value: int, count: nat)
    ensures
        le_bytes(value, count).len() == count,
    decreases count,
{
    if count > 0 {
        lemma_le_bytes_len(value / 0x100, (count - 1) as nat);
    }
}

/// A name ends at `end` if no byte from `from` to `end` is zero and the
/// field ends there or has a zero byte there.
proof fn lemma_name_end(field: Seq<u8>, from: int, end: int)
    requires
        0 <= from <= end <= field.len(),
        forall|i: int| from <= i < end ==> #[trigger] field[i] != 0,
        end < field.len() ==> field[end] == 0,
    ensures
        name_end(field, from) == end,
    decreases end - from,
{
    if from < end {
        lemma_name_end(field, from + 1, end);
    }
}

/// The field of a name that fits is as long as a name field, and holds the
/// name.
pub proof fn lemma_name_field(name: Seq<char>)
    requires
        fits_field(name),
    ensures
        name_field(name).len() == NAME_LEN,
        name_text(name_field(name)) == name,
{
    let text = encode_utf8(name);
    let field = name_field(name);
    assert forall|i: int| 0 <= i < text.len() implies #[trigger] field[i] != 0 by {
        assert(field[i] == text[i]);
    }
    lemma_name_end(field, 0, text.len() as int);
    assert(name_bytes(field) =~= text);
    encode_utf8_valid_utf8(name);
    encode_utf8_decode_utf8(name);
}

/// The record of an area is as long as an area record.
pub proof fn lemma_area_record_len(area: AreaView)
    requires
        fits_field(area.name),
    ensures
        area_record(area).len() == AREA_SIZE,
{
    lemma_le_bytes_len(area.offset as int, 4);
    lemma_le_bytes_len(area.size as int, 4);
    lemma_le_bytes_len(area.flags as int, 2);
    lemma_name_field(area.name);
}

/// Where an image holds the record of an area, decoding gives the area.
pub proof fn lemma_area_at(data: Seq<u8>, at: int, area: AreaView)
    requires
        0 <= at,
        at + AREA_SIZE <= data.len(),
        data.subrange(at, at + AREA_SIZE) == area_record(area),
        fits_field(area.name),
        area.flags & !KNOWN_BITS == 0,
    ensures
        area_at(data, at) == area,
{
    let record = area_record(area);
    lemma_le_bytes_len(area.offset as int, 4);
    lemma_le_bytes_len(area.size as int, 4);
    lemma_le_bytes_len(area.flags as int, 2);
    lemma_name_field(area.name);
    assert(data.subrange(at, at + 4) =~= record.subrange(0, 4));
    assert(record.subrange(0, 4) =~= le_bytes(area.offset as int, 4));
    assert(data.subrange(at + 4, at + 8) =~= record.subrange(4, 8));
    assert(record.subrange(4, 8) =~= le_bytes(area.size as int, 4));
    assert(data.subrange(at + 8, at + 40) =~= record.subrange(8, 40));
    assert(record.subrange(8, 40) =~= name_field(area.name));
    assert(data.subrange(at + 40, at + 42) =~= record.subrange(40, 42));
    assert(record.subrange(40, 42) =~= le_bytes(area.flags as int, 2));
    lemma_le_u32(data, at, area.offset as int);
    lemma_le_u32(data, at + 4, area.size as int);
    lemma_le_u16(data, at + 40, area.flags as int);
    let flags: u16 = area.flags;
    assert(flags & 0xfu16 == flags) by (bit_vector)
        requires
            flags & !0xfu16 == 0,
    ;
}

/// The records of `upto` areas are `upto` area records long, and the
/// record of each area stands at its place among them.
pub proof fn lemma_area_records(areas: Seq<AreaView>, upto: int)
    requires
        0 <= upto <= areas.len(),
        forall|i: int| 0 <= i < areas.len() ==> fits_field((#[trigger] areas[i]).name),
    ensures
        area_records(areas, upto).len() == 42 * upto,
        forall|i: int|
            0 <= i < upto ==> area_records(areas, upto).subrange(42 * i, 42 * i + 42) == area_record(
                #[trigger] areas[i],
            ),
    decreases upto,
{
    if upto > 0 {
        lemma_area_records(areas, upto - 1);
        lemma_area_record_len(areas[upto - 1]);
        let head = area_records(areas, upto - 1);
        let all = area_records(areas, upto);
        assert forall|i: int| 0 <= i < upto implies all.subrange(42 * i, 42 * i + 42) == area_record(
            #[trigger] areas[i],
        ) by {
            if i < upto - 1 {
                assert(all.subrange(42 * i, 42 * i + 42) =~= head.subrange(42 * i, 42 * i + 42));
            } else {
                assert(all.subrange(42 * i, 42 * i + 42) =~= area_record(areas[i]));
            }
        }
    }
}

/// Decoding the bytes of a flash map gives the flash map back, whatever
/// follows the bytes.
pub proof fn lemma_decoding_inverts_encoding(map: FMapView, rest: Seq<u8>)
    requires
        encodable(map),
    ensures
        parsed(encoded(map) + rest) == Ok::<FMapView, FMapError>(map),
        has_signature(encoded(map) + rest, 0),
        (encoded(map) + rest).len() >= HEADER_SIZE,
{
    let data = encoded(map) + rest;
    let head = header(map);
    let records = area_records(map.areas, map.areas.len() as int);
    let count = map.areas.len() as int;
    lemma_le_bytes_len(map.base as int, 8);
    lemma_le_bytes_len(map.size as int, 4);
    lemma_le_bytes_len(count, 2);
    lemma_name_field(map.name);
    lemma_area_records(map.areas, count);
    assert(head.len() == 56);
    assert(data.len() == 56 + 42 * count + rest.len());
    assert(data.subrange(0, 8) =~= SIGNATURE@);
    assert(data[8] == map.version_major);
    assert(data[9] == map.version_minor);
    assert(data.subrange(10, 18) =~= le_bytes(map.base as int, 8));
    assert(data.subrange(18, 22) =~= le_bytes(map.size as int, 4));
    assert(data.subrange(22, 54) =~= name_field(map.name));
    assert(data.subrange(54, 56) =~= le_bytes(count, 2));
    lemma_le_u64(data, 10, map.base as int);
    lemma_le_u32(data, 18, map.size as int);
    lemma_le_u16(data, 54, count);
    assert(area_count(data) == count);
    assert forall|i: int| 0 <= i <= count implies #[trigger] map_len(i) == 56 + 42 * i by {
        assert(AREA_SIZE * i == 42 * i) by (nonlinear_arith)
            requires
                AREA_SIZE == 42,
        ;
    }
    let got = map_at_start(data);
    assert(got.areas =~= map.areas) by {
        assert forall|i: int| 0 <= i < count implies got.areas[i] == map.areas[i] by {
            let at = map_len(i);
            assert(data.subrange(at, at + 42) =~= records.subrange(42 * i, 42 * i + 42));
            lemma_area_at(data, at, map.areas[i]);
        }
    }
    assert(got == map);
}

/// An image that starts with the bytes of a flash map is found to hold it
/// at offset zero.
pub proof fn lemma_finding_inverts_encoding(map: FMapView, rest: Seq<u8>)
    requires
        encodable(map),
    ensures
        found(encoded(map) + rest) == Ok::<(FMapView, int), FMapError>((map, 0)),
{
    let data = encoded(map) + rest;
    lemma_decoding_inverts_encoding(map, rest);
    lemma_found_at_start(data);
    assert(data.skip(0) =~= data);
}

} // verus!
