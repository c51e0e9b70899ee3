//! The flash map: the layout descriptor of a firmware image.
use crate::flags::{FMapFlags, KNOWN_BITS};
use crate::search::{
    has_hit, has_signature, hit_in_pass, hit_offset, in_pass, is_hit, is_pass, lemma_hit_unique,
    lemma_next_multiple, lemma_no_multiple_between, lemma_stride_grows, limit, pass_misses, stride,
};
use crate::wire::{decode_name, le_u16, le_u32, le_u64, name_text, read_u16, read_u32, read_u64};
use vstd::prelude::*;
use vstd::slice::slice_subrange;
use vstd::string::StringExecFns;

verus! {

/// Candidate offsets of the search are multiples of this.
pub const SEARCH_STRIDE: usize = 4;

/// Length of the name field of a header and of an area record.
pub const NAME_LEN: usize = 32;

/// The bytes that mark the start of a flash map: `__FMAP__`.
pub const SIGNATURE: [u8; 8] = [0x5f, 0x5f, 0x46, 0x4d, 0x41, 0x50, 0x5f, 0x5f];

/// The one major version that is understood.
pub const VERSION_MAJOR: u32 = 1;

/// Length of the header: signature, two version bytes, base, size, name and
/// number of areas.
pub const HEADER_SIZE: usize = 8 + 1 + 1 + 8 + 4 + NAME_LEN + 2;

/// Length of one area record: offset, size, name and flags.
pub const AREA_SIZE: usize = 4 + 4 + NAME_LEN + 2;

/// One named range of the image.
#[derive(Debug, Default, Clone, PartialEq)]
pub struct FMapArea {
    pub name: String,
    pub offset: u32,
    pub size: u32,
    pub flags: FMapFlags,
}

/// What an area says: the mathematical value of an [`FMapArea`].
pub struct AreaView {
    pub name: Seq<char>,
    pub offset: u32,
    pub size: u32,
    pub flags: u16,
}

impl View for FMapArea {
    type V = AreaView;

    open spec fn view(&self) -> AreaView {
        AreaView { name: self.name@, offset: self.offset, size: self.size, flags: self.flags@ }
    }
}

/// A decoded flash map: the header and its areas, in the order in which
/// the image lists them.
#[derive(Debug, Default)]
pub struct FMap {
    pub name: String,
    pub version_major: u8,
    pub version_minor: u8,
    pub base: u64,
    pub size: u32,
    pub areas: Vec<FMapArea>,
}

/// What a flash map says: the mathematical value of an [`FMap`].
pub struct FMapView {
    pub name: Seq<char>,
    pub version_major: u8,
    pub version_minor: u8,
    pub base: u64,
    pub size: u32,
    pub areas: Seq<AreaView>,
}

impl View for FMap {
    type V = FMapView;

    open spec fn view(&self) -> FMapView {
        FMapView {
            name: self.name@,
            version_major: self.version_major,
            version_minor: self.version_minor,
            base: self.base,
            size: self.size,
            areas: self.areas@.map_values(|area: FMapArea| area@),
        }
    }
}

/// Why the bytes of the image did not suffice.
#[derive(Debug, Clone, Copy, PartialEq, Eq, Structural)]
pub enum IoFailure {
    /// The image is too small to hold a header at all.
    NotEnoughData,
    /// The image ends inside the header or inside an area record.
    UnexpectedEof,
}

/// What an I/O failure says about itself.
pub open spec fn failure_text(failure: IoFailure) -> Seq<char> {
    match failure {
        IoFailure::NotEnoughData => "Not enough data to fit FMap"@,
        IoFailure::UnexpectedEof => "failed to fill whole buffer"@,
    }
}

impl IoFailure {
    /// The failure as a sentence.
    pub fn message(&self) -> (r: String)
        ensures
            r@ == failure_text(*self),
    {
        match self {
            IoFailure::NotEnoughData => String::from_str("Not enough data to fit FMap"),
            IoFailure::UnexpectedEof => String::from_str("failed to fill whole buffer"),
        }
    }
}

/// Why no flash map was decoded.
#[derive(Debug, Clone, Copy, PartialEq, Eq, Structural)]
pub enum FMapError {
    /// No candidate offset holds the signature.
    NotFound,
    /// The header cannot be used.
    CorruptedHeader,
    /// The major version is not [`VERSION_MAJOR`]; major and minor version
    /// as found.
    IncorrectVersion(u8, u8),
    /// The image ended too early.
    IOError { source: IoFailure },
}

/// What an error says, as a sentence of fixed words; a version error ends
/// with the major and the minor version in decimal, a dot between them.
pub open spec fn error_text(error: FMapError) -> Seq<char> {
    match error {
        FMapError::NotFound => "flash map not found"@,
        FMapError::CorruptedHeader => "flash map header corrupted"@,
        FMapError::IncorrectVersion(major, minor) => "incorrect or unsupported flash map version: "@
            + crate::text::decimal(major as nat) + "."@ + crate::text::decimal(minor as nat),
        FMapError::IOError { source } => "io error"@,
    }
}

impl FMapError {
    /// The error as a sentence.
    pub fn message(&self) -> (r: String)
        ensures
            r@ == error_text(*self),
    {
        match self {
            FMapError::NotFound => String::from_str("flash map not found"),
            FMapError::CorruptedHeader => String::from_str("flash map header corrupted"),
            FMapError::IncorrectVersion(major, minor) => {
                let mut out = String::from_str("incorrect or unsupported flash map version: ");
                crate::text::push_decimal(&mut out, *major as u64);
                out.append(".");
                crate::text::push_decimal(&mut out, *minor as u64);
                out
            },
            FMapError::IOError { source } => String::from_str("io error"),
        }
    }
}

/// The area whose record starts at `at`. Bits of the flags field that name
/// no flag are dropped.
pub open spec fn area_at(data: Seq<u8>, at: int) -> AreaView {
    AreaView {
        offset: le_u32(data, at) as u32,
        size: le_u32(data, at + 4) as u32,
        name: name_text(data.subrange(at + 8, at + 40)),
        flags: (le_u16(data, at + 40) as u16) & KNOWN_BITS,
    }
}

/// The number of areas that the header at the start of `data` announces.
pub open spec fn area_count(data: Seq<u8>) -> int {
    le_u16(data, 54)
}

/// The length of a flash map with `count` areas.
pub open spec fn map_len(count: int) -> int {
    HEADER_SIZE + AREA_SIZE * count
}

/// The flash map at the start of `data`, which is long enough to hold it.
pub open spec fn map_at_start(data: Seq<u8>) -> FMapView {
    FMapView {
        name: name_text(data.subrange(22, 54)),
        version_major: data[8],
        version_minor: data[9],
        base: le_u64(data, 10) as u64,
        size: le_u32(data, 18) as u32,
        areas: Seq::new(area_count(data) as nat, |i: int| area_at(data, map_len(i))),
    }
}

/// What decoding the start of `data` gives: the flash map, or the reason
/// why there is none. The header must fit; then the major version must be
/// the one that is understood; then every announced area must fit. The
/// signature is not looked at.
pub open spec fn parsed(data: Seq<u8>) -> Result<FMapView, FMapError> {
    if data.len() < HEADER_SIZE {
        Err(FMapError::IOError { source: IoFailure::UnexpectedEof })
    } else if data[8] != VERSION_MAJOR {
        Err(FMapError::IncorrectVersion(data[8], data[9]))
    } else if data.len() < map_len(area_count(data)) {
        Err(FMapError::IOError { source: IoFailure::UnexpectedEof })
    } else {
        Ok(map_at_start(data))
    }
}

/// What the search gives: the flash map and the offset at which it was
/// found, or the reason why there is none. An image shorter than a header
/// is refused before anything is looked at.
pub open spec fn found(data: Seq<u8>) -> Result<(FMapView, int), FMapError> {
    if data.len() < HEADER_SIZE {
        Err(FMapError::IOError { source: IoFailure::NotEnoughData })
    } else if !has_hit(data) {
        Err(FMapError::NotFound)
    } else {
        match parsed(data.skip(hit_offset(data))) {
            Ok(map) => Ok((map, hit_offset(data))),
            Err(e) => Err(e),
        }
    }
}

/// The length of a flash map in numbers.
proof fn lemma_map_len(count: int)
    ensures
        map_len(count) == 56 + 42 * count,
{
    assert(HEADER_SIZE == 56 && AREA_SIZE == 42);
    assert(AREA_SIZE * count == 42 * count) by (nonlinear_arith)
        requires
            AREA_SIZE == 42,
    ;
}

/// Decodes the area whose record starts at `at`.
fn parse_area(data: &[u8], at: usize) -> (r: FMapArea)
    requires
        at + AREA_SIZE <= data@.len(),
    ensures
        r@ == area_at(data@, at as int),
{
    let len: usize = data.len();
    let offset = read_u32(data, at);
    let size = read_u32(data, at + 4);
    let name = decode_name(slice_subrange(data, at + 8, at + 40));
    let flags = FMapFlags::from_bits_truncate(read_u16(data, at + 40));
    FMapArea { name, offset, size, flags }
}

impl FMap {
    /// Decodes the flash map at the start of `data`.
    pub fn parse_fmap(data: &[u8]) -> (r: Result<FMap, FMapError>)
        ensures
            match r {
                Ok(map) => parsed(data@) == Ok::<FMapView, FMapError>(map@),
                Err(e) => parsed(data@) == Err::<FMapView, FMapError>(e),
            },
    {
        if data.len() < HEADER_SIZE {
            return Err(FMapError::IOError { source: IoFailure::UnexpectedEof });
        }
        let version_major: u8 = data[8];
        let version_minor: u8 = data[9];
        if version_major != VERSION_MAJOR as u8 {
            return Err(FMapError::IncorrectVersion(version_major, version_minor));
        }
        let base = read_u64(data, 10);
        let size = read_u32(data, 18);
        let name = decode_name(slice_subrange(data, 22, 54));
        let count: usize = read_u16(data, 54) as usize;
        let mut areas: Vec<FMapArea> = Vec::new();
        let mut i: usize = 0;
        let mut at: usize = HEADER_SIZE;
        proof {
            lemma_map_len(0);
            lemma_map_len(count as int);
        }
        while i < count
            invariant
                i <= count,
                count == area_count(data@),
                count <= 0xffff,
                data@.len() >= HEADER_SIZE,
                data@[8] == VERSION_MAJOR,
                at == 56 + 42 * i,
                data@.len() >= at,
                map_len(count as int) == 56 + 42 * count,
                areas@.len() == i,
                forall|j: int| 0 <= j < i ==> (#[trigger] areas@[j])@ == area_at(data@, map_len(j)),
            decreases count - i,
        {
            proof {
                lemma_map_len(i as int);
            }
            if data.len() - at < AREA_SIZE {
                return Err(FMapError::IOError { source: IoFailure::UnexpectedEof });
            }
            areas.push(parse_area(data, at));
            at = at + AREA_SIZE;
            i = i + 1;
        }
        let map = FMap { name, version_major, version_minor, base, size, areas };
        assert(map@.areas =~= map_at_start(data@).areas);
        Ok(map)
    }

    /// Whether `data` starts with the signature. Fails where `data` is
    /// shorter than the signature.
    pub fn is_fmap(data: &[u8]) -> (r: Result<bool, FMapError>)
        ensures
            data@.len() < 8 ==> r == Err::<bool, FMapError>(
                FMapError::IOError { source: IoFailure::UnexpectedEof },
            ),
            data@.len() >= 8 ==> r == Ok::<bool, FMapError>(has_signature(data@, 0)),
    {
        if data.len() < 8 {
            return Err(FMapError::IOError { source: IoFailure::UnexpectedEof });
        }
        Ok(signature_at(data, 0))
    }

    /// Decodes the flash map at `offset`, where the search has found it.
    fn parse_hit(data: &[u8], offset: usize) -> (r: Result<(FMap, usize), FMapError>)
        requires
            data@.len() >= HEADER_SIZE,
            is_hit(data@, offset as int),
            offset <= data@.len(),
        ensures
            match r {
                Ok((map, at)) => found(data@) == Ok::<(FMapView, int), FMapError>((map@, at as int)),
                Err(e) => found(data@) == Err::<(FMapView, int), FMapError>(e),
            },
    {
        proof {
            lemma_hit_unique(data@, offset as int, hit_offset(data@));
        }
        let rest = slice_subrange(data, offset, data.len());
        assert(rest@ == data@.skip(offset as int));
        match FMap::parse_fmap(rest) {
            Ok(map) => Ok((map, offset)),
            Err(e) => Err(e),
        }
    }

    /// Finds the flash map in the image `data` and decodes it. Returns the
    /// flash map and the offset at which it was found.
    ///
    /// Offset zero is looked at first. Then come the passes: the first one
    /// with the largest power of two that is not above the limit as
    /// alignment, each further one with half the alignment of the one
    /// before, down to four. A pass looks at the multiples of its alignment,
    /// ascending. The flash map is decoded at the first offset that holds
    /// the signature.
    pub fn find_fmap(data: &[u8]) -> (r: Result<(FMap, usize), FMapError>)
        ensures
            match r {
                Ok((map, at)) => found(data@) == Ok::<(FMapView, int), FMapError>((map@, at as int)),
                Err(e) => found(data@) == Err::<(FMapView, int), FMapError>(e),
            },
    {
        let len: usize = data.len();
        if len < HEADER_SIZE {
            return Err(FMapError::IOError { source: IoFailure::NotEnoughData });
        }
        if signature_at(data, 0) {
            return FMap::parse_hit(data, 0);
        }
        let last: usize = len - HEADER_SIZE;
        proof {
            reveal_with_fuel(stride, 3);
        }
        if last >= SEARCH_STRIDE {
            let mut align: usize = SEARCH_STRIDE;
            let ghost mut e: nat = 2;
            while align <= last / 2
                invariant
                    align == stride(e),
                    e >= 2,
                    4 <= align <= last,
                decreases last - align,
            {
                align = align * 2;
                proof {
                    e = e + 1;
                }
            }
            proof {
                assert forall|c: nat| c > e && #[trigger] is_pass(data@, c) implies pass_misses(data@, c) by {
                    if c > e + 1 {
                        lemma_stride_grows(e + 1, c);
                    }
                }
            }
            while align >= SEARCH_STRIDE
                invariant
                    align == stride(e),
                    e >= 1,
                    align <= last,
                    last == limit(data@),
                    len == data@.len(),
                    len >= HEADER_SIZE,
                    !has_signature(data@, 0),
                    forall|c: nat| c > e && #[trigger] is_pass(data@, c) ==> pass_misses(data@, c),
                decreases align,
            {
                proof {
                    reveal_with_fuel(stride, 3);
                    if e < 2 {
                        assert(stride(e) == 2);
                    }
                }
                let mut offset: usize = align;
                let mut more: bool = true;
                proof {
                    assert(offset as int % stride(e) == 0) by (nonlinear_arith)
                        requires
                            offset == stride(e),
                            stride(e) > 0,
                    ;
                    assert forall|j: int| 0 < j < offset && j % stride(e) == 0 implies !#[trigger] has_signature(
                        data@,
                        j,
                    ) by {
                        lemma_no_multiple_between(stride(e), 0, j);
                    }
                }
                while more
                    invariant
                        align == stride(e),
                        e >= 2,
                        align >= 4,
                        last == limit(data@),
                        len == data@.len(),
                        len >= HEADER_SIZE,
                        !has_signature(data@, 0),
                        is_pass(data@, e),
                        forall|c: nat| c > e && #[trigger] is_pass(data@, c) ==> pass_misses(data@, c),
                        more ==> 0 < offset <= last && offset as int % stride(e) == 0,
                        more ==> forall|j: int|
                            0 < j < offset && j % stride(e) == 0 ==> !#[trigger] has_signature(data@, j),
                        !more ==> pass_misses(data@, e),
                    decreases
                        (if more {
                            last - offset + 1
                        } else {
                            0
                        }),
                {
                    if signature_at(data, offset) {
                        proof {
                            assert(in_pass(data@, e, offset as int));
                            assert(hit_in_pass(data@, e, offset as int));
                            assert(is_hit(data@, offset as int));
                        }
                        return FMap::parse_hit(data, offset);
                    }
                    if last - offset < align {
                        proof {
                            assert forall|k: int| in_pass(data@, e, k) implies !#[trigger] has_signature(
                                data@,
                                k,
                            ) by {
                                if k > offset {
                                    lemma_no_multiple_between(stride(e), offset as int, k);
                                }
                            }
                        }
                        more = false;
                    } else {
                        proof {
                            lemma_next_multiple(stride(e), offset as int);
                            assert forall|j: int| 0 < j < offset + align && j % stride(e) == 0 implies !#[trigger] has_signature(
                                data@,
                                j,
                            ) by {
                                if j > offset {
                                    lemma_no_multiple_between(stride(e), offset as int, j);
                                }
                            }
                        }
                        offset = offset + align;
                    }
                }
                align = align / 2;
                proof {
                    e = (e - 1) as nat;
                }
            }
            proof {
                assert(e == 1) by {
                    if e >= 2 {
                        lemma_stride_grows(1, e);
                    }
                }
            }
        } else {
            proof {
                assert forall|c: nat| #[trigger] is_pass(data@, c) implies pass_misses(data@, c) by {
                    if c > 2 {
                        lemma_stride_grows(2, c);
                    }
                }
            }
        }
        proof {
            assert forall|k: int| !is_hit(data@, k) by {
                if k != 0 && is_hit(data@, k) {
                    let c = choose|c: nat| hit_in_pass(data@, c, k);
                    assert(is_pass(data@, c));
                    assert(pass_misses(data@, c));
                    assert(in_pass(data@, c, k));
                }
            }
        }
        Err(FMapError::NotFound)
    }

    /// The first area with the name `area_name`, if there is one.
    pub fn get(&self, area_name: &str) -> (r: Option<&FMapArea>)
        ensures
            r == (if named_at(self.areas@, area_name@, 0) < self.areas@.len() {
                Some(&self.areas@[named_at(self.areas@, area_name@, 0)])
            } else {
                None
            }),
    {
        let wanted = String::from_str(area_name);
        let mut i: usize = 0;
        while i < self.areas.len()
            invariant
                i <= self.areas@.len(),
                wanted@ == area_name@,
                named_at(self.areas@, area_name@, 0) == named_at(self.areas@, area_name@, i as int),
            decreases self.areas@.len() - i,
        {
            if self.areas[i].name == wanted {
                return Some(&self.areas[i]);
            }
            i = i + 1;
        }
        None
    }
}

/// Where the first area with the name `name` is, looking from `from` on;
/// the number of areas if there is none.
pub open spec fn named_at(areas: Seq<FMapArea>, name: Seq<char>, from: int) -> int
    decreases areas.len() - from,
{
    if from < 0 || from >= areas.len() {
        areas.len() as int
    } else if areas[from].name@ == name {
        from
    } else {
        named_at(areas, name, from + 1)
    }
}

/// Whether the eight bytes at `at` are the signature.
fn signature_at(data: &[u8], at: usize) -> (r: bool)
    requires
        at + 8 <= data@.len(),
    ensures
        r == has_signature(data@, at as int),
{
    let len: usize = data.len();
    let mut i: usize = 0;
    while i < 8
        invariant
            i <= 8,
            at + 8 <= data@.len(),
            len == data@.len(),
            forall|j: int| 0 <= j < i ==> data@[at + j] == SIGNATURE@[j],
        decreases 8 - i,
    {
        if data[at + i] != SIGNATURE[i] {
            assert(data@.subrange(at as int, at + 8)[i as int] != SIGNATURE@[i as int]);
            return false;
        }
        i = i + 1;
    }
    assert(data@.subrange(at as int, at + 8) =~= SIGNATURE@);
    true
}

} // verus!
