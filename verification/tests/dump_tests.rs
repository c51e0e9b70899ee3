use flashmap::dump_fmap::{
    dump_default, dump_ec_parsable, dump_flashrom_parsable, dump_human_readable, dump_parsable,
    error_message, show, show_line,
};
use flashmap::region::Node;
use flashmap::flags::FMapFlags;
use flashmap::fmap::{FMap, FMapArea};
use flashmap::tree::{build_tree, Forest, TreeError};

fn example_complex_fmap() -> FMap {
    FMap {
        name: "FLASH".to_string(),
        version_major: 1,
        version_minor: 1,
        base: 0,
        size: 33554432,
        areas: vec![
            FMapArea {
                name: "SI_ALL".to_string(),
                offset: 0,
                size: 5242880,
                flags: FMapFlags::empty(),
            },
            FMapArea {
                name: "SI_DESC".to_string(),
                offset: 0,
                size: 4096,
                flags: FMapFlags::empty(),
            },
            FMapArea {
                name: "SI_ME".to_string(),
                offset: 4096,
                size: 5238784,
                flags: FMapFlags::empty(),
            },
            FMapArea {
                name: "CSE_LAYOUT".to_string(),
                offset: 4096,
                size: 8192,
                flags: FMapFlags::empty(),
            },
            FMapArea {
                name: "CSE_RO".to_string(),
                offset: 12288,
                size: 1679360,
                flags: FMapFlags::empty(),
            },
            FMapArea {
                name: "CSE_DATA".to_string(),
                offset: 1691648,
                size: 430080,
                flags: FMapFlags::empty(),
            },
            FMapArea {
                name: "CSE_RW".to_string(),
                offset: 2121728,
                size: 3080192,
                flags: FMapFlags::empty(),
            },
            FMapArea {
                name: "SI_BIOS".to_string(),
                offset: 5242880,
                size: 28311552,
                flags: FMapFlags::empty(),
            },
            FMapArea {
                name: "RW_SECTION_A".to_string(),
                offset: 5242880,
                size: 8388608,
                flags: FMapFlags::empty(),
            },
            FMapArea {
                name: "VBLOCK_A".to_string(),
                offset: 5242880,
                size: 65536,
                flags: FMapFlags::empty(),
            },
            FMapArea {
                name: "FW_MAIN_A".to_string(),
                offset: 5308416,
                size: 8323008,
                flags: FMapFlags::empty(),
            },
            FMapArea {
                name: "RW_FWID_A".to_string(),
                offset: 13631424,
                size: 64,
                flags: FMapFlags::empty(),
            },
            FMapArea {
                name: "RW_LEGACY".to_string(),
                offset: 13631488,
                size: 2097152,
                flags: FMapFlags::empty(),
            },
            FMapArea {
                name: "RW_MISC".to_string(),
                offset: 15728640,
                size: 1048576,
                flags: FMapFlags::empty(),
            },
            FMapArea {
                name: "UNIFIED_MRC_CACHE".to_string(),
                offset: 15728640,
                size: 131072,
                flags: FMapFlags::Preserve(),
            },
            FMapArea {
                name: "RECOVERY_MRC_CACHE".to_string(),
                offset: 15728640,
                size: 65536,
                flags: FMapFlags::empty(),
            },
            FMapArea {
                name: "RW_MRC_CACHE".to_string(),
                offset: 15794176,
                size: 65536,
                flags: FMapFlags::empty(),
            },
            FMapArea {
                name: "RW_ELOG".to_string(),
                offset: 15859712,
                size: 16384,
                flags: FMapFlags::Preserve(),
            },
            FMapArea {
                name: "RW_SHARED".to_string(),
                offset: 15876096,
                size: 16384,
                flags: FMapFlags::empty(),
            },
            FMapArea {
                name: "SHARED_DATA".to_string(),
                offset: 15876096,
                size: 8192,
                flags: FMapFlags::empty(),
            },
            FMapArea {
                name: "SHARED_DATA_DUPLICATE".to_string(),
                offset: 15876096,
                size: 8192,
                flags: FMapFlags::empty(),
            },
            FMapArea {
                name: "VBLOCK_DEV".to_string(),
                offset: 15884288,
                size: 8192,
                flags: FMapFlags::empty(),
            },
            FMapArea {
                name: "RW_SPD_CACHE".to_string(),
                offset: 15892480,
                size: 4096,
                flags: FMapFlags::Preserve(),
            },
            FMapArea {
                name: "RW_VPD".to_string(),
                offset: 15896576,
                size: 8192,
                flags: FMapFlags::Preserve(),
            },
            FMapArea {
                name: "RW_NVRAM".to_string(),
                offset: 15904768,
                size: 24576,
                flags: FMapFlags::Preserve(),
            },
            FMapArea {
                name: "RW_SECTION_B".to_string(),
                offset: 16777216,
                size: 8388608,
                flags: FMapFlags::empty(),
            },
            FMapArea {
                name: "VBLOCK_B".to_string(),
                offset: 16777216,
                size: 65536,
                flags: FMapFlags::empty(),
            },
            FMapArea {
                name: "FW_MAIN_B".to_string(),
                offset: 16842752,
                size: 8323008,
                flags: FMapFlags::empty(),
            },
            FMapArea {
                name: "RW_FWID_B".to_string(),
                offset: 25165760,
                size: 64,
                flags: FMapFlags::empty(),
            },
            FMapArea {
                name: "WP_RO".to_string(),
                offset: 25165824,
                size: 8388608,
                flags: FMapFlags::empty(),
            },
            FMapArea {
                name: "RO_VPD".to_string(),
                offset: 25165824,
                size: 16384,
                flags: FMapFlags::Preserve(),
            },
            FMapArea {
                name: "RO_SECTION".to_string(),
                offset: 25182208,
                size: 8372224,
                flags: FMapFlags::empty(),
            },
            FMapArea {
                name: "FMAP".to_string(),
                offset: 25182208,
                size: 2048,
                flags: FMapFlags::empty(),
            },
            FMapArea {
                name: "RO_FRID".to_string(),
                offset: 25184256,
                size: 64,
                flags: FMapFlags::empty(),
            },
            FMapArea {
                name: "GBB".to_string(),
                offset: 25186304,
                size: 458752,
                flags: FMapFlags::empty(),
            },
            FMapArea {
                name: "COREBOOT".to_string(),
                offset: 25645056,
                size: 7909376,
                flags: FMapFlags::empty(),
            },
            FMapArea {
                name: "COREBOOT_OVERLAP".to_string(),
                offset: 25645057,
                size: 7909377,
                flags: FMapFlags::empty(),
            },
        ],
    }
}

#[test]
fn test_dump_human_readable() -> Result<(), String> {
    let report = match dump_human_readable(&example_complex_fmap(), false, true) {
        Ok(report) => report,
        Err(e) => {
            return Err(format!(
                "dump_human_readable() failed with error: {}",
                error_message(&e)
            ))
        }
    };
    let expected = r#"# name                     start       end         size
-entire flash-             00000000    02000000    02000000
  SI_ALL                     00000000    00500000    00500000
    SI_DESC                    00000000    00001000    00001000
    SI_ME                      00001000    00500000    004ff000
      CSE_LAYOUT                 00001000    00003000    00002000
      CSE_RO                     00003000    0019d000    0019a000
      CSE_DATA                   0019d000    00206000    00069000
      CSE_RW                     00206000    004f6000    002f0000
  SI_BIOS                    00500000    02000000    01b00000
    RW_SECTION_A               00500000    00d00000    00800000
      VBLOCK_A                   00500000    00510000    00010000
      FW_MAIN_A                  00510000    00cfffc0    007effc0
      RW_FWID_A                  00cfffc0    00d00000    00000040
    RW_LEGACY                  00d00000    00f00000    00200000
    RW_MISC                    00f00000    01000000    00100000
      UNIFIED_MRC_CACHE          00f00000    00f20000    00020000
        RECOVERY_MRC_CACHE         00f00000    00f10000    00010000
        RW_MRC_CACHE               00f10000    00f20000    00010000
      RW_ELOG                    00f20000    00f24000    00004000
      RW_SHARED                  00f24000    00f28000    00004000
        SHARED_DATA                00f24000    00f26000    00002000
        SHARED_DATA_DUPLICATE      00f24000    00f26000    00002000  // DUPLICATE
        VBLOCK_DEV                 00f26000    00f28000    00002000
      RW_SPD_CACHE               00f28000    00f29000    00001000
      RW_VPD                     00f29000    00f2b000    00002000
      RW_NVRAM                   00f2b000    00f31000    00006000
    RW_SECTION_B               01000000    01800000    00800000
      VBLOCK_B                   01000000    01010000    00010000
      FW_MAIN_B                  01010000    017fffc0    007effc0
      RW_FWID_B                  017fffc0    01800000    00000040
    WP_RO                      01800000    02000000    00800000
      RO_VPD                     01800000    01804000    00004000
      RO_SECTION                 01804000    02000000    007fc000
        FMAP                       01804000    01804800    00000800
        RO_FRID                    01804800    01804840    00000040
        GBB                        01805000    01875000    00070000
        COREBOOT                   01875000    02000000    0078b000
"#;
    assert_eq!(report.text, expected);

    Ok(())
}

#[test]
fn test_dump_human_readable_with_gaps() -> Result<(), String> {
    let report = match dump_human_readable(&example_complex_fmap(), true, true) {
        Ok(report) => report,
        Err(e) => {
            return Err(format!(
                "dump_human_readable() failed with error: {}",
                error_message(&e)
            ))
        }
    };
    let expected = r#"# name                     start       end         size
-entire flash-             00000000    02000000    02000000
  SI_ALL                     00000000    00500000    00500000
    SI_DESC                    00000000    00001000    00001000
    SI_ME                      00001000    00500000    004ff000
      CSE_LAYOUT                 00001000    00003000    00002000
      CSE_RO                     00003000    0019d000    0019a000
      CSE_DATA                   0019d000    00206000    00069000
      CSE_RW                     00206000    004f6000    002f0000
      [UNUSED]                   004f6000    00500000    0000a000
  SI_BIOS                    00500000    02000000    01b00000
    RW_SECTION_A               00500000    00d00000    00800000
      VBLOCK_A                   00500000    00510000    00010000
      FW_MAIN_A                  00510000    00cfffc0    007effc0
      RW_FWID_A                  00cfffc0    00d00000    00000040
    RW_LEGACY                  00d00000    00f00000    00200000
    RW_MISC                    00f00000    01000000    00100000
      UNIFIED_MRC_CACHE          00f00000    00f20000    00020000
        RECOVERY_MRC_CACHE         00f00000    00f10000    00010000
        RW_MRC_CACHE               00f10000    00f20000    00010000
      RW_ELOG                    00f20000    00f24000    00004000
      RW_SHARED                  00f24000    00f28000    00004000
        SHARED_DATA                00f24000    00f26000    00002000
        SHARED_DATA_DUPLICATE      00f24000    00f26000    00002000  // DUPLICATE
        VBLOCK_DEV                 00f26000    00f28000    00002000
      RW_SPD_CACHE               00f28000    00f29000    00001000
      RW_VPD                     00f29000    00f2b000    00002000
      RW_NVRAM                   00f2b000    00f31000    00006000
      [UNUSED]                   00f31000    01000000    000cf000
    RW_SECTION_B               01000000    01800000    00800000
      VBLOCK_B                   01000000    01010000    00010000
      FW_MAIN_B                  01010000    017fffc0    007effc0
      RW_FWID_B                  017fffc0    01800000    00000040
    WP_RO                      01800000    02000000    00800000
      RO_VPD                     01800000    01804000    00004000
      RO_SECTION                 01804000    02000000    007fc000
        FMAP                       01804000    01804800    00000800
        RO_FRID                    01804800    01804840    00000040
        [UNUSED]                   01804840    01805000    000007c0
        GBB                        01805000    01875000    00070000
        COREBOOT                   01875000    02000000    0078b000
"#;
    assert_eq!(report.text, expected);

    Ok(())
}

#[test]
fn test_dump_humap_readable_do_not_ignore_overlaps() -> Result<(), String> {
    if dump_human_readable(&example_complex_fmap(), true, false).is_ok() {
        Err("Overlap error expected, got Ok()".to_string())
    } else {
        Ok(())
    }
}

fn example_fmap() -> FMap {
    FMap {
        name: "example".to_string(),
        base: 0,
        size: 0x400,
        version_major: 1,
        version_minor: 1,
        areas: vec![
            FMapArea {
                name: "bootblock".to_string(),
                offset: 0,
                size: 0x80,
                flags: FMapFlags::empty(),
            },
            FMapArea {
                name: "normal".to_string(),
                offset: 0x80,
                size: 0x80,
                flags: FMapFlags::Preserve(),
            },
            FMapArea {
                name: "fallback".to_string(),
                offset: 0x100,
                size: 0x100,
                flags: FMapFlags::empty(),
            },
            FMapArea {
                name: "data".to_string(),
                offset: 0x200,
                size: 0x200,
                flags: FMapFlags::empty(),
            },
        ],
    }
}

#[test]
fn test_dump_parsable() -> Result<(), String> {
    let result = dump_parsable(&example_fmap());
    let expected = "bootblock 0 128\n\
                    normal 128 128\n\
                    fallback 256 256\n\
                    data 512 512\n";
    assert_eq!(result, expected);

    Ok(())
}

#[test]
fn test_dump_flashrom_parsable() -> Result<(), String> {
    let result = dump_flashrom_parsable(&example_fmap());
    let expected = "0x000000:0x00007f bootblock\n\
                    0x000080:0x0000ff normal\n\
                    0x000100:0x0001ff fallback\n\
                    0x000200:0x0003ff data\n";
    assert_eq!(result, expected);

    Ok(())
}

#[test]
fn test_dump_ec_parsable() -> Result<(), String> {
    let result = dump_ec_parsable(&example_fmap());
    let expected = "bootblock 0 128 not-preserve\n\
                    normal 128 128 preserve\n\
                    fallback 256 256 not-preserve\n\
                    data 512 512 not-preserve\n";
    assert_eq!(result, expected);

    Ok(())
}

#[test]
fn dump_default_lists_header_and_areas() {
    let text = dump_default(&example_fmap(), 0x200);
    let expected = "hit at 0x200\n\
                    fmap_signature:  __FMAP__\n\
                    fmap_version:    1.1\n\
                    fmap_base:       0x0\n\
                    fmap_size:       0x400 (1024)\n\
                    fmap_name:       example\n\
                    fmap_nareas:     4\n\
                    area:            1\n\
                    area_offset:     0x0\n\
                    area_size:       0x80 (128)\n\
                    area_name:       bootblock\n\
                    area:            2\n\
                    area_offset:     0x80\n\
                    area_size:       0x80 (128)\n\
                    area_name:       normal\n\
                    area:            3\n\
                    area_offset:     0x100\n\
                    area_size:       0x100 (256)\n\
                    area_name:       fallback\n\
                    area:            4\n\
                    area_offset:     0x200\n\
                    area_size:       0x200 (512)\n\
                    area_name:       data\n";
    assert_eq!(text, expected);
}

#[test]
fn dump_default_of_a_map_without_areas() {
    let fmap = FMap {
        name: String::new(),
        version_major: 1,
        version_minor: 0,
        base: 0xffe0_0000,
        size: 0,
        areas: vec![],
    };
    let expected = "hit at 0x0\n\
                    fmap_signature:  __FMAP__\n\
                    fmap_version:    1.0\n\
                    fmap_base:       0xffe00000\n\
                    fmap_size:       0x0 (0)\n\
                    fmap_name:       \n\
                    fmap_nareas:     0\n";
    assert_eq!(dump_default(&fmap, 0), expected);
}

#[test]
fn flat_listings_of_no_areas_are_empty() {
    let fmap = FMap {
        name: "none".to_string(),
        version_major: 1,
        version_minor: 0,
        base: 0,
        size: 16,
        areas: vec![],
    };
    assert_eq!(dump_parsable(&fmap), "");
    assert_eq!(dump_flashrom_parsable(&fmap), "");
    assert_eq!(dump_ec_parsable(&fmap), "");
}

#[test]
fn flashrom_line_of_wide_and_empty_areas() {
    let fmap = FMap {
        name: "edge".to_string(),
        version_major: 1,
        version_minor: 0,
        base: 0,
        size: 0,
        areas: vec![
            FMapArea {
                name: "nothing".to_string(),
                offset: 0,
                size: 0,
                flags: FMapFlags::empty(),
            },
            FMapArea {
                name: "big".to_string(),
                offset: 0x0100_0000,
                size: 0x0100_0000,
                flags: FMapFlags::empty(),
            },
            FMapArea {
                name: "past".to_string(),
                offset: 0xffff_ffff,
                size: 2,
                flags: FMapFlags::empty(),
            },
        ],
    };
    let expected = "0x000000:0x000000 nothing\n\
                    0x1000000:0x1ffffff big\n\
                    0xffffffff:0x100000000 past\n";
    assert_eq!(dump_flashrom_parsable(&fmap), expected);
}

#[test]
fn ec_listing_looks_at_the_preserve_flag_only() {
    let fmap = FMap {
        name: "flags".to_string(),
        version_major: 1,
        version_minor: 0,
        base: 0,
        size: 0x30,
        areas: vec![
            FMapArea {
                name: "a".to_string(),
                offset: 0,
                size: 0x10,
                flags: FMapFlags::Static() | FMapFlags::Compressed() | FMapFlags::RO(),
            },
            FMapArea {
                name: "b".to_string(),
                offset: 0x10,
                size: 0x10,
                flags: FMapFlags::Static() | FMapFlags::Preserve(),
            },
        ],
    };
    assert_eq!(
        dump_ec_parsable(&fmap),
        "a 0 16 not-preserve\nb 16 16 preserve\n"
    );
}

#[test]
fn show_line_pads_name_and_numbers() {
    assert_eq!(
        show_line(0, "-entire flash-", 0, 0x0200_0000, 0x0200_0000, ""),
        "-entire flash-             00000000    02000000    02000000\n"
    );
    assert_eq!(
        show_line(2, "SHARED_DATA_DUPLICATE", 0xf2_4000, 0xf2_6000, 0x2000, "  // DUPLICATE"),
        "    SHARED_DATA_DUPLICATE      00f24000    00f26000    00002000  // DUPLICATE\n"
    );
}

#[test]
fn show_line_keeps_long_names_and_wide_numbers() {
    assert_eq!(
        show_line(1, "a_name_that_is_longer_than_the_column", 0x1_0000_0000, 0x1_0000_0010, 0x10, ""),
        "  a_name_that_is_longer_than_the_column  100000000    100000010    00000010\n"
    );
    // The width of the name counts characters, not bytes.
    assert_eq!(
        show_line(0, "\u{e9}t\u{e9}", 1, 2, 1, ""),
        "\u{e9}t\u{e9}                        00000001    00000002    00000001\n"
    );
}

#[test]
fn overlap_error_says_how_many() {
    assert_eq!(
        error_message(&TreeError::Overlaps(3)),
        "3 overlapping areas detected. Terminating."
    );
    match dump_human_readable(&example_complex_fmap(), false, false) {
        Err(TreeError::Overlaps(n)) => assert_eq!(n, 1),
        Ok(_) => panic!("an overlap was expected"),
    }
}

#[test]
fn report_counts_gaps_and_overlaps() {
    let shown = dump_human_readable(&example_complex_fmap(), true, true).unwrap();
    assert_eq!(shown.overlaps, 1);
    assert_eq!(shown.gaps, 3);
    let hidden = dump_human_readable(&example_complex_fmap(), false, true).unwrap();
    assert_eq!(hidden.overlaps, 1);
    assert_eq!(hidden.gaps, 3);
    let plain = dump_human_readable(&example_fmap(), false, false).unwrap();
    assert_eq!(plain.overlaps, 0);
    assert_eq!(plain.gaps, 0);
}

#[test]
fn tree_of_a_map_without_areas_is_the_whole_image() {
    let fmap = FMap {
        name: "bare".to_string(),
        version_major: 1,
        version_minor: 0,
        base: 0,
        size: 0x400,
        areas: vec![],
    };
    let report = dump_human_readable(&fmap, true, false).unwrap();
    assert_eq!(
        report.text,
        "# name                     start       end         size\n\
         -entire flash-             00000000    00000400    00000400\n"
    );
    assert_eq!(report.gaps, 0);
}

#[test]
fn show_writes_the_tree_that_was_built() {
    let forest = build_tree(&example_fmap(), false, false).unwrap();
    let expected = "# name                     start       end         size\n\
                    -entire flash-             00000000    00000400    00000400\n\
                    \x20 bootblock                  00000000    00000080    00000080\n\
                    \x20 normal                     00000080    00000100    00000080\n\
                    \x20 fallback                   00000100    00000200    00000100\n\
                    \x20 data                       00000200    00000400    00000200\n";
    assert_eq!(show(&forest), expected);
}

#[test]
fn show_passes_over_children_that_are_no_later_nodes() {
    let mut only = Node::new("only".to_string(), 0x10, 0x10);
    only.children = vec![0, 1, 9];
    let forest = Forest { nodes: vec![only], regions: 4, unused: vec![], overlaps: 0 };
    assert_eq!(
        show(&forest),
        "# name                     start       end         size\n\
         only                       00000010    00000020    00000010\n"
    );
}
