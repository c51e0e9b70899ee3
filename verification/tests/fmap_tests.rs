use flashmap::flags::FMapFlags;
use flashmap::fmap::{
    FMap, FMapArea, FMapError, IoFailure, AREA_SIZE, HEADER_SIZE, NAME_LEN, SEARCH_STRIDE, SIGNATURE,
    VERSION_MAJOR,
};

const EXAMPLE_FMAP_BIN_DATA_OFFSET: usize = 0x200;

fn name_field(name: &[u8]) -> Vec<u8> {
    let mut field = vec![0u8; NAME_LEN];
    field[..name.len()].copy_from_slice(name);
    field
}

fn area_record(name: &[u8], offset: u32, size: u32, flags: u16) -> Vec<u8> {
    let mut record = Vec::new();
    record.extend_from_slice(&offset.to_le_bytes());
    record.extend_from_slice(&size.to_le_bytes());
    record.extend_from_slice(&name_field(name));
    record.extend_from_slice(&flags.to_le_bytes());
    record
}

fn header(major: u8, minor: u8, base: u64, size: u32, name: &[u8], nareas: u16) -> Vec<u8> {
    let mut bytes = Vec::new();
    bytes.extend_from_slice(&SIGNATURE);
    bytes.push(major);
    bytes.push(minor);
    bytes.extend_from_slice(&base.to_le_bytes());
    bytes.extend_from_slice(&size.to_le_bytes());
    bytes.extend_from_slice(&name_field(name));
    bytes.extend_from_slice(&nareas.to_le_bytes());
    bytes
}

fn example_map_bytes() -> Vec<u8> {
    let mut bytes = header(1, 0, 0, 0x400, b"example", 4);
    bytes.extend_from_slice(&area_record(b"bootblock", 0, 0x80, 0x1));
    bytes.extend_from_slice(&area_record(b"normal", 0x80, 0x80, 0x3));
    bytes.extend_from_slice(&area_record(b"fallback", 0x100, 0x100, 0x3));
    bytes.extend_from_slice(&area_record(b"data", 0x200, 0x200, 0x0));
    bytes
}

/// An image of 0x400 bytes with the example flash map at 0x200.
fn example_image() -> Vec<u8> {
    let mut image = vec![0xffu8; 0x400];
    let map = example_map_bytes();
    image[EXAMPLE_FMAP_BIN_DATA_OFFSET..EXAMPLE_FMAP_BIN_DATA_OFFSET + map.len()].copy_from_slice(&map);
    image
}

/// An image of `len` bytes, none of which starts a signature.
fn blank(len: usize) -> Vec<u8> {
    vec![0xa5u8; len]
}

fn put(image: &mut [u8], at: usize, bytes: &[u8]) {
    image[at..at + bytes.len()].copy_from_slice(bytes);
}

#[test]
fn test_is_fmap() -> Result<(), String> {
    match FMap::is_fmap(&SIGNATURE[..]) {
        Ok(false) => {
            return Err("FMap::is_fmap() expected to return true for correct signature".to_string())
        }
        Err(e) => return Err(e.message()),
        Ok(true) => (),
    }

    let incorrect_signature = "__NOT_FMAP__".as_bytes();
    match FMap::is_fmap(incorrect_signature) {
        Ok(true) => {
            Err("FMap::is_fmap() expected to return false for incorrect signature".to_string())
        }
        Err(e) => Err(e.message()),
        Ok(false) => Ok(()),
    }
}

fn check_example_fmap(data: &[u8], hit_at: usize) -> Result<(), String> {
    let (fmap, hit_offset) = match FMap::find_fmap(data) {
        Ok(v) => v,
        Err(e) => {
            return Err(format!(
                "Faild to parse expected correct FMap. Error: {}",
                e.message()
            ))
        }
    };
    // # name                     start       end         size
    // -entire flash-             00000000    00000400    00000400
    //   bootblock                  00000000    00000080    00000080
    //   normal                     00000080    00000100    00000080
    //   fallback                   00000100    00000200    00000100
    //   data                       00000200    00000400    00000200

    assert_eq!(hit_offset, hit_at);

    assert_eq!(fmap.base, 0);
    assert_eq!(fmap.size, 0x400);
    assert_eq!(fmap.version_major, 1);
    assert_eq!(fmap.version_minor, 0);
    assert_eq!(fmap.name, "example");
    assert_eq!(fmap.areas.len(), 4);

    let a1 = &fmap.areas[0];
    assert_eq!(a1.name, "bootblock");
    assert_eq!(a1.offset, 0);
    assert_eq!(a1.size, 0x80);
    assert_eq!(a1.flags, FMapFlags::Static());

    let a2 = &fmap.areas[1];
    assert_eq!(a2.name, "normal");
    assert_eq!(a2.offset, 0x80);
    assert_eq!(a2.size, 0x80);
    assert_eq!(a2.flags, FMapFlags::Static() | FMapFlags::Compressed());

    let a3 = &fmap.areas[2];
    assert_eq!(a3.name, "fallback");
    assert_eq!(a3.offset, 0x100);
    assert_eq!(a3.size, 0x100);
    assert_eq!(a3.flags, FMapFlags::Static() | FMapFlags::Compressed());

    let a4 = &fmap.areas[3];
    assert_eq!(a4.name, "data");
    assert_eq!(a4.offset, EXAMPLE_FMAP_BIN_DATA_OFFSET as u32);
    assert_eq!(a4.size, EXAMPLE_FMAP_BIN_DATA_OFFSET as u32);
    assert_eq!(a4.flags, FMapFlags::empty());

    Ok(())
}

#[test]
fn test_find_fmap_with_example_file() -> Result<(), String> {
    let fmap_data = example_image();

    check_example_fmap(&fmap_data, EXAMPLE_FMAP_BIN_DATA_OFFSET)?;

    check_example_fmap(&fmap_data[EXAMPLE_FMAP_BIN_DATA_OFFSET..], 0)
}

#[test]
fn test_find_fmap_not_enough_data() -> Result<(), String> {
    let data = "not_enough_data_for_fmap".as_bytes().to_vec();
    match FMap::find_fmap(&data) {
        Ok(_) => Err("FMap::find_fmap expected to fail but succeded".into()),
        Err(FMapError::IOError { .. }) => Ok(()),
        Err(e) => Err(format!("Unexpected error: {}", e.message())),
    }
}

#[test]
fn test_find_fmap_incorrect_alignment() -> Result<(), String> {
    let fmap_data = example_image();

    match FMap::find_fmap(&fmap_data[3..]) {
        Ok(_) => Err("FMap::find_fmap expected to fail but succeded".into()),
        Err(FMapError::NotFound) => Ok(()),
        Err(e) => Err(format!("Unexpected error: {}", e.message())),
    }
}

#[test]
fn test_find_fmap_incorrect_version() -> Result<(), String> {
    let mut fmap_data = example_image();

    fmap_data[EXAMPLE_FMAP_BIN_DATA_OFFSET + SIGNATURE.len()] = 6;
    fmap_data[EXAMPLE_FMAP_BIN_DATA_OFFSET + SIGNATURE.len() + 1] = 6;

    match FMap::find_fmap(&fmap_data) {
        Ok(_) => Err("FMap::find_fmap expected to fail but succeded".into()),
        Err(FMapError::IncorrectVersion(_, _)) => Ok(()),
        Err(e) => Err(format!("Unexpected error: {}", e.message())),
    }
}

#[test]
fn test_fmap_get() -> Result<(), String> {
    let fmap = FMap {
        name: "example".to_string(),
        version_major: 1,
        version_minor: 0,
        base: 0,
        size: 1024,
        areas: vec![FMapArea {
            name: "bootblock".to_string(),
            offset: 0,
            size: 128,
            flags: FMapFlags::empty(),
        }],
    };

    match fmap.get("bootblock") {
        None => return Err("FMapArea expected, got None".to_string()),
        Some(a) => assert_eq!(a, &fmap.areas[0]),
    }

    if let Some(a) = fmap.get("not_found") {
        return Err(format!("Expected None, got FMapArea: {a:?}"));
    }

    Ok(())
}

#[test]
fn constants_of_the_format() {
    assert_eq!(SEARCH_STRIDE, 4);
    assert_eq!(NAME_LEN, 32);
    assert_eq!(&SIGNATURE, b"__FMAP__");
    assert_eq!(VERSION_MAJOR, 1);
    assert_eq!(HEADER_SIZE, 56);
    assert_eq!(AREA_SIZE, 42);
}

#[test]
fn get_returns_the_first_of_two_areas_with_one_name() {
    let fmap = FMap {
        name: "twice".to_string(),
        version_major: 1,
        version_minor: 0,
        base: 0,
        size: 1024,
        areas: vec![
            FMapArea { name: "other".to_string(), offset: 0, size: 1, flags: FMapFlags::empty() },
            FMapArea { name: "same".to_string(), offset: 1, size: 2, flags: FMapFlags::empty() },
            FMapArea { name: "same".to_string(), offset: 3, size: 4, flags: FMapFlags::RO() },
        ],
    };
    let found = fmap.get("same").unwrap();
    assert_eq!(found.offset, 1);
    assert_eq!(found.size, 2);
    assert!(fmap.get("").is_none());
    assert!(fmap.get("sam").is_none());
}

#[test]
fn is_fmap_fails_on_less_than_a_signature() {
    assert_eq!(
        FMap::is_fmap(&SIGNATURE[..7]),
        Err(FMapError::IOError { source: IoFailure::UnexpectedEof })
    );
    assert_eq!(
        FMap::is_fmap(&[]),
        Err(FMapError::IOError { source: IoFailure::UnexpectedEof })
    );
    assert_eq!(FMap::is_fmap(b"__FMAP__ and more"), Ok(true));
    assert_eq!(FMap::is_fmap(b"_FMAP___"), Ok(false));
}

#[test]
fn signature_at_offset_zero_is_found_there() {
    // A second flash map at an aligned offset does not matter.
    let mut image = blank(0x400);
    put(&mut image, 0, &header(1, 7, 0x1122_3344_5566_7788, 0x400, b"first", 0));
    put(&mut image, 0x200, &example_map_bytes());
    let (fmap, hit) = FMap::find_fmap(&image).unwrap();
    assert_eq!(hit, 0);
    assert_eq!(fmap.name, "first");
    assert_eq!(fmap.version_major, 1);
    assert_eq!(fmap.version_minor, 7);
    assert_eq!(fmap.base, 0x1122_3344_5566_7788);
    assert_eq!(fmap.size, 0x400);
    assert!(fmap.areas.is_empty());
}

#[test]
fn decoding_gives_back_what_was_encoded() {
    let mut bytes = header(1, 2, 0xffe0_0000, 0x0102_0304, b"round trip", 3);
    bytes.extend_from_slice(&area_record(b"first", 0x0a0b_0c0d, 0x0000_0001, 0x8));
    bytes.extend_from_slice(&area_record(b"", 0, 0xffff_ffff, 0xf));
    bytes.extend_from_slice(&area_record(
        b"a name of thirty-two characters!",
        0xffff_ffff,
        0,
        0x5,
    ));
    let fmap = FMap::parse_fmap(&bytes).unwrap();
    assert_eq!(fmap.name, "round trip");
    assert_eq!(fmap.version_major, 1);
    assert_eq!(fmap.version_minor, 2);
    assert_eq!(fmap.base, 0xffe0_0000);
    assert_eq!(fmap.size, 0x0102_0304);
    assert_eq!(
        fmap.areas,
        vec![
            FMapArea {
                name: "first".to_string(),
                offset: 0x0a0b_0c0d,
                size: 1,
                flags: FMapFlags::Preserve(),
            },
            FMapArea {
                name: String::new(),
                offset: 0,
                size: 0xffff_ffff,
                flags: FMapFlags::Static()
                    | FMapFlags::Compressed()
                    | FMapFlags::RO()
                    | FMapFlags::Preserve(),
            },
            FMapArea {
                name: "a name of thirty-two characters!".to_string(),
                offset: 0xffff_ffff,
                size: 0,
                flags: FMapFlags::Static() | FMapFlags::RO(),
            },
        ]
    );
    let (found, hit) = FMap::find_fmap(&bytes).unwrap();
    assert_eq!(hit, 0);
    assert_eq!(found.areas, fmap.areas);
}

#[test]
fn lone_signature_is_found_at_every_multiple_of_four() {
    let map = header(1, 0, 0, 0x100, b"here", 0);
    for k in [4usize, 8, 12, 16, 20, 64, 100, 128, 196, 200] {
        let mut image = blank(0x100);
        put(&mut image, k, &map);
        let (fmap, hit) = FMap::find_fmap(&image).unwrap();
        assert_eq!(hit, k);
        assert_eq!(fmap.name, "here");
    }
    // 200 is the limit of an image of 256 bytes; 204 is above it.
    let mut image = blank(0x100);
    put(&mut image, 204, &map[..52]);
    assert!(matches!(FMap::find_fmap(&image), Err(FMapError::NotFound)));
}

#[test]
fn signature_off_the_stride_is_not_found() {
    let map = header(1, 0, 0, 0x100, b"here", 0);
    for k in [1usize, 2, 3, 5, 6, 7, 62, 129] {
        let mut image = blank(0x100);
        put(&mut image, k, &map);
        assert!(matches!(FMap::find_fmap(&image), Err(FMapError::NotFound)));
    }
}

#[test]
fn widest_alignment_wins_over_smaller_offset() {
    // Limit 0x400 - 56 = 968, so the first pass has alignment 512.
    let mut image = blank(0x400);
    put(&mut image, 4, &header(1, 0, 0, 0x400, b"at four", 0));
    put(&mut image, 0x100, &header(1, 0, 0, 0x400, b"at 256", 0));
    put(&mut image, 0x200, &header(1, 0, 0, 0x400, b"at 512", 0));
    let (fmap, hit) = FMap::find_fmap(&image).unwrap();
    assert_eq!(hit, 0x200);
    assert_eq!(fmap.name, "at 512");

    // Within one pass the smaller offset wins: 0x100 and 0x300 are both
    // looked at by the pass with alignment 256.
    let mut image = blank(0x400);
    put(&mut image, 0x300, &header(1, 0, 0, 0x400, b"at 768", 0));
    put(&mut image, 0x100, &header(1, 0, 0, 0x400, b"at 256", 0));
    put(&mut image, 0x1c, &header(1, 0, 0, 0x400, b"at 28", 0));
    let (fmap, hit) = FMap::find_fmap(&image).unwrap();
    assert_eq!(hit, 0x100);
    assert_eq!(fmap.name, "at 256");
}

#[test]
fn first_pass_starts_at_the_largest_power_of_two_within_the_limit() {
    // An image of 64 + 56 bytes has the limit 64: offset 64 is looked at by
    // the first pass, before offset 32.
    let mut image = blank(64 + HEADER_SIZE);
    put(&mut image, 64, &header(1, 0, 0, 1, b"at 64", 0));
    put(&mut image, 32, &SIGNATURE);
    image[32 + 8] = 9;
    let (fmap, hit) = FMap::find_fmap(&image).unwrap();
    assert_eq!(hit, 64);
    assert_eq!(fmap.name, "at 64");
}

#[test]
fn image_without_signature_has_no_map() {
    for len in [HEADER_SIZE, HEADER_SIZE + 1, HEADER_SIZE + 3, HEADER_SIZE + 4, 0x100, 0x1001] {
        assert!(matches!(FMap::find_fmap(&blank(len)), Err(FMapError::NotFound)));
    }
}

#[test]
fn image_shorter_than_a_header_is_too_small() {
    for len in [0usize, 1, 8, HEADER_SIZE - 1] {
        let mut image = blank(len);
        if len >= 8 {
            put(&mut image, 0, &SIGNATURE);
        }
        assert_eq!(
            FMap::find_fmap(&image).err(),
            Some(FMapError::IOError { source: IoFailure::NotEnoughData })
        );
    }
    // A header alone is enough.
    let image = header(1, 0, 0, 0, b"", 0);
    assert_eq!(image.len(), HEADER_SIZE);
    assert!(FMap::find_fmap(&image).is_ok());
}

#[test]
fn version_error_carries_the_version_found() {
    let image = header(2, 9, 0, 0, b"new", 0);
    assert_eq!(
        FMap::find_fmap(&image).err(),
        Some(FMapError::IncorrectVersion(2, 9))
    );
    assert_eq!(
        FMap::parse_fmap(&header(0, 1, 0, 0, b"old", 0xffff)).err(),
        Some(FMapError::IncorrectVersion(0, 1))
    );
    // The minor version is taken as it is.
    assert_eq!(
        FMap::parse_fmap(&header(1, 255, 0, 0, b"", 0)).unwrap().version_minor,
        255
    );
}

#[test]
fn map_cut_short_is_an_io_failure() {
    let whole = example_map_bytes();
    for len in [HEADER_SIZE, HEADER_SIZE + 1, HEADER_SIZE + AREA_SIZE, whole.len() - 1] {
        assert_eq!(
            FMap::parse_fmap(&whole[..len]).err(),
            Some(FMapError::IOError { source: IoFailure::UnexpectedEof })
        );
        assert_eq!(
            FMap::find_fmap(&whole[..len]).err(),
            Some(FMapError::IOError { source: IoFailure::UnexpectedEof })
        );
    }
    assert_eq!(
        FMap::parse_fmap(&whole[..HEADER_SIZE - 1]).err(),
        Some(FMapError::IOError { source: IoFailure::UnexpectedEof })
    );
    assert!(FMap::parse_fmap(&whole).is_ok());
    // What follows the last area is not looked at.
    let mut longer = whole.clone();
    longer.extend_from_slice(&[1, 2, 3]);
    assert_eq!(FMap::parse_fmap(&longer).unwrap().areas.len(), 4);
}

#[test]
fn parse_does_not_look_at_the_signature() {
    let mut bytes = example_map_bytes();
    bytes[0] = b'X';
    let fmap = FMap::parse_fmap(&bytes).unwrap();
    assert_eq!(fmap.name, "example");
    assert_eq!(fmap.areas.len(), 4);
}

#[test]
fn names_end_at_the_first_nul_and_bad_names_are_empty() {
    let mut bytes = header(1, 0, 0, 0, b"head\0tail", 4);
    bytes.extend_from_slice(&area_record(b"two\0\0words", 0, 0, 0));
    bytes.extend_from_slice(&area_record(&[0xff, 0xfe, b'x'], 0, 0, 0));
    bytes.extend_from_slice(&area_record("gr\u{fc}n".as_bytes(), 0, 0, 0));
    bytes.extend_from_slice(&area_record(&[b' '; 32], 0, 0, 0));
    let fmap = FMap::parse_fmap(&bytes).unwrap();
    assert_eq!(fmap.name, "head");
    assert_eq!(fmap.areas[0].name, "two");
    assert_eq!(fmap.areas[1].name, "");
    assert_eq!(fmap.areas[2].name, "gr\u{fc}n");
    assert_eq!(fmap.areas[3].name, " ".repeat(32));
}

#[test]
fn flag_bits_that_name_no_flag_are_dropped() {
    let mut bytes = header(1, 0, 0, 0, b"flags", 3);
    bytes.extend_from_slice(&area_record(b"all", 0, 0, 0xffff));
    bytes.extend_from_slice(&area_record(b"high", 0, 0, 0xfff0));
    bytes.extend_from_slice(&area_record(b"mixed", 0, 0, 0x0118));
    let fmap = FMap::parse_fmap(&bytes).unwrap();
    assert_eq!(fmap.areas[0].flags.bits(), 0xf);
    assert_eq!(fmap.areas[1].flags, FMapFlags::empty());
    assert_eq!(fmap.areas[2].flags, FMapFlags::Preserve());
}

#[test]
fn error_messages() {
    assert_eq!(FMapError::NotFound.message(), "flash map not found");
    assert_eq!(FMapError::CorruptedHeader.message(), "flash map header corrupted");
    assert_eq!(
        FMapError::IncorrectVersion(6, 6).message(),
        "incorrect or unsupported flash map version: 6.6"
    );
    assert_eq!(
        FMapError::IncorrectVersion(255, 0).message(),
        "incorrect or unsupported flash map version: 255.0"
    );
    assert_eq!(
        FMapError::IOError { source: IoFailure::NotEnoughData }.message(),
        "io error"
    );
    assert_eq!(IoFailure::NotEnoughData.message(), "Not enough data to fit FMap");
    assert_eq!(IoFailure::UnexpectedEof.message(), "failed to fill whole buffer");
}
