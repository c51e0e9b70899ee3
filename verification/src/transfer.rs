//! Which area of an image may be copied out of it or filled in, and with
//! which bytes.
use crate::fmap::{named_at, FMap, FMapArea};
use vstd::prelude::*;
use vstd::slice::slice_subrange;
use vstd::string::StringExecFns;

verus! {

/// Why an area is not copied.
#[derive(Debug, Clone, Copy, PartialEq, Eq, Structural)]
pub enum AreaProblem {
    /// The flash map has no area of that name.
    NotFound,
    /// The area is empty.
    ZeroSize,
    /// The area ends behind the end of the image.
    BeyondImage,
}

/// What is said of an area that is not copied.
pub open spec fn problem_text(problem: AreaProblem, name: Seq<char>) -> Seq<char> {
    match problem {
        AreaProblem::NotFound => "FlashMap area '"@ + name + "' not found"@,
        AreaProblem::ZeroSize => "Area '"@ + name + "' has zero size"@,
        AreaProblem::BeyondImage => "Area '"@ + name + "' stretches beyond image"@,
    }
}

impl AreaProblem {
    /// The problem as a sentence about the area `area_name`.
    pub fn message(&self, area_name: &str) -> (r: String)
        ensures
            r@ == problem_text(*self, area_name@),
    {
        match self {
            AreaProblem::NotFound => {
                let mut out = String::from_str("FlashMap area '");
                out.append(area_name);
                out.append("' not found");
                out
            },
            AreaProblem::ZeroSize => {
                let mut out = String::from_str("Area '");
                out.append(area_name);
                out.append("' has zero size");
                out
            },
            AreaProblem::BeyondImage => {
                let mut out = String::from_str("Area '");
                out.append(area_name);
                out.append("' stretches beyond image");
                out
            },
        }
    }
}

/// The area ends behind the end of the image that the flash map describes.
pub open spec fn beyond_image(fmap: &FMap, area: FMapArea) -> bool {
    area.offset + area.size > fmap.size
}

/// The area named `name` as far as it may be filled in: position of the
/// first area of that name, which must not end behind the image.
pub open spec fn loadable(fmap: &FMap, name: Seq<char>) -> Result<int, AreaProblem> {
    let at = named_at(fmap.areas@, name, 0);
    if at >= fmap.areas@.len() {
        Err(AreaProblem::NotFound)
    } else if beyond_image(fmap, fmap.areas@[at]) {
        Err(AreaProblem::BeyondImage)
    } else {
        Ok(at)
    }
}

/// The area named `name` as far as it may be copied out: position of the
/// first area of that name, which must not be empty and must not end behind
/// the image.
pub open spec fn extractable(fmap: &FMap, name: Seq<char>) -> Result<int, AreaProblem> {
    let at = named_at(fmap.areas@, name, 0);
    if at >= fmap.areas@.len() {
        Err(AreaProblem::NotFound)
    } else if fmap.areas@[at].size == 0 {
        Err(AreaProblem::ZeroSize)
    } else if beyond_image(fmap, fmap.areas@[at]) {
        Err(AreaProblem::BeyondImage)
    } else {
        Ok(at)
    }
}

/// Whether the area ends behind the end of the image.
fn ends_beyond(fmap: &FMap, area: &FMapArea) -> (r: bool)
    ensures
        r == beyond_image(fmap, *area),
{
    area.offset as u64 + area.size as u64 > fmap.size as u64
}

/// The area named `area_name`, if it may be copied out of the image.
pub fn area_to_extract<'a>(fmap: &'a FMap, area_name: &str) -> (r: Result<&'a FMapArea, AreaProblem>)
    ensures
        match r {
            Ok(area) => extractable(fmap, area_name@) matches Ok(at) && *area == fmap.areas@[at],
            Err(e) => extractable(fmap, area_name@) == Err::<int, AreaProblem>(e),
        },
{
    match fmap.get(area_name) {
        None => Err(AreaProblem::NotFound),
        Some(area) => {
            if area.size == 0 {
                Err(AreaProblem::ZeroSize)
            } else if ends_beyond(fmap, area) {
                Err(AreaProblem::BeyondImage)
            } else {
                Ok(area)
            }
        },
    }
}

/// The area named `area_name`, if it may be filled in.
pub fn area_to_load<'a>(fmap: &'a FMap, area_name: &str) -> (r: Result<&'a FMapArea, AreaProblem>)
    ensures
        match r {
            Ok(area) => loadable(fmap, area_name@) matches Ok(at) && *area == fmap.areas@[at],
            Err(e) => loadable(fmap, area_name@) == Err::<int, AreaProblem>(e),
        },
{
    match fmap.get(area_name) {
        None => Err(AreaProblem::NotFound),
        Some(area) => {
            if ends_beyond(fmap, area) {
                Err(AreaProblem::BeyondImage)
            } else {
                Ok(area)
            }
        },
    }
}

/// The bytes of `area` in `image`, if the image holds all of them.
pub fn area_bytes<'a>(image: &'a [u8], area: &FMapArea) -> (r: Option<&'a [u8]>)
    ensures
        r is Some <==> area.offset + area.size <= image@.len(),
        r matches Some(bytes) ==> bytes@ == image@.subrange(
            area.offset as int,
            area.offset + area.size,
        ),
{
    let end: u64 = area.offset as u64 + area.size as u64;
    if end <= image.len() as u64 {
        Some(slice_subrange(image, area.offset as usize, end as usize))
    } else {
        None
    }
}

/// What is written into an area of `size` bytes for the content `content`:
/// the first bytes of the content, as many as fit, and `fill` in the bytes
/// that the content does not reach.
pub open spec fn filled(content: Seq<u8>, size: nat, fill: u8) -> Seq<u8> {
    Seq::new(
        size,
        |i: int|
            if i < content.len() {
                content[i]
            } else {
                fill
            },
    )
}

/// The bytes to write into an area of `size` bytes.
pub fn fill_area(content: &[u8], size: u32, fill: u8) -> (r: Vec<u8>)
    ensures
        r@ == filled(content@, size as nat, fill),
{
    let mut out: Vec<u8> = Vec::new();
    let mut i: usize = 0;
    while i < size as usize
        invariant
            i <= size,
            out@.len() == i,
            forall|j: int|
                0 <= j < i ==> #[trigger] out@[j] == (if j < content@.len() {
                    content@[j]
                } else {
                    fill
                }),
        decreases size - i,
    {
        if i < content.len() {
            out.push(content[i]);
        } else {
            out.push(fill);
        }
        i = i + 1;
    }
    assert(out@ =~= filled(content@, size as nat, fill));
    out
}

} // verus!
