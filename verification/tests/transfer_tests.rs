use flashmap::flags::FMapFlags;
use flashmap::fmap::{FMap, FMapArea};
use flashmap::transfer::{area_bytes, area_to_extract, area_to_load, fill_area, AreaProblem};

fn area(name: &str, offset: u32, size: u32) -> FMapArea {
    FMapArea { name: name.to_string(), offset, size, flags: FMapFlags::empty() }
}

fn example() -> FMap {
    FMap {
        name: "example".to_string(),
        version_major: 1,
        version_minor: 0,
        base: 0,
        size: 0x100,
        areas: vec![
            area("head", 0, 0x10),
            area("empty", 0x10, 0),
            area("tail", 0xf0, 0x10),
            area("long", 0xf0, 0x11),
            area("far", 0xffff_ffff, 0xffff_ffff),
            area("head", 0x20, 0x20),
        ],
    }
}

#[test]
fn areas_that_may_be_copied_out() {
    let fmap = example();
    assert_eq!(area_to_extract(&fmap, "head"), Ok(&fmap.areas[0]));
    assert_eq!(area_to_extract(&fmap, "tail"), Ok(&fmap.areas[2]));
    assert_eq!(area_to_extract(&fmap, "missing"), Err(AreaProblem::NotFound));
    assert_eq!(area_to_extract(&fmap, "empty"), Err(AreaProblem::ZeroSize));
    assert_eq!(area_to_extract(&fmap, "long"), Err(AreaProblem::BeyondImage));
    assert_eq!(area_to_extract(&fmap, "far"), Err(AreaProblem::BeyondImage));
}

#[test]
fn areas_that_may_be_filled_in() {
    let fmap = example();
    assert_eq!(area_to_load(&fmap, "head"), Ok(&fmap.areas[0]));
    assert_eq!(area_to_load(&fmap, "empty"), Ok(&fmap.areas[1]));
    assert_eq!(area_to_load(&fmap, "tail"), Ok(&fmap.areas[2]));
    assert_eq!(area_to_load(&fmap, "missing"), Err(AreaProblem::NotFound));
    assert_eq!(area_to_load(&fmap, "long"), Err(AreaProblem::BeyondImage));
    assert_eq!(area_to_load(&fmap, "far"), Err(AreaProblem::BeyondImage));
}

#[test]
fn problems_as_sentences() {
    assert_eq!(
        AreaProblem::NotFound.message("RW_VPD"),
        "FlashMap area 'RW_VPD' not found"
    );
    assert_eq!(AreaProblem::ZeroSize.message("x"), "Area 'x' has zero size");
    assert_eq!(
        AreaProblem::BeyondImage.message(""),
        "Area '' stretches beyond image"
    );
}

#[test]
fn bytes_of_an_area() {
    let image: Vec<u8> = (0u8..=255).collect();
    assert_eq!(area_bytes(&image, &area("a", 0x10, 4)), Some(&[0x10u8, 0x11, 0x12, 0x13][..]));
    assert_eq!(area_bytes(&image, &area("b", 0xfe, 2)), Some(&[0xfeu8, 0xff][..]));
    assert_eq!(area_bytes(&image, &area("c", 0x100, 0)), Some(&[][..]));
    assert_eq!(area_bytes(&image, &area("d", 0xff, 2)), None);
    assert_eq!(area_bytes(&image, &area("e", 0x101, 0)), None);
    assert_eq!(area_bytes(&image, &area("f", 0xffff_ffff, 0xffff_ffff)), None);
}

#[test]
fn content_is_filled_up_or_cut() {
    assert_eq!(fill_area(&[1, 2, 3], 5, 0xff), vec![1, 2, 3, 0xff, 0xff]);
    assert_eq!(fill_area(&[1, 2, 3], 3, 0xff), vec![1, 2, 3]);
    assert_eq!(fill_area(&[1, 2, 3], 2, 0xff), vec![1, 2]);
    assert_eq!(fill_area(&[], 2, 7), vec![7, 7]);
    assert_eq!(fill_area(&[9], 0, 7), Vec::<u8>::new());
}
