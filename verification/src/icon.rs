//! The picture in the title bar of the window.
use vstd::prelude::*;

verus! {

/// A picture: four bytes for each dot, row by row, and its extent.
#[derive(Debug)]
pub struct IconData {
    pub rgba: Vec<u8>,
    pub width: u32,
    pub height: u32,
}

/// A picture by its contents: the bytes, the width and the height.
pub type Pixels = (Seq<u8>, u32, u32);

/// What the image decoder makes of the bytes of an image file, as dots with
/// colour and opacity; none where it cannot decode them.
pub uninterp spec fn decoded(bytes: Seq<u8>) -> Option<Pixels>;

pub open spec fn pixels(r: Option<(Vec<u8>, u32, u32)>) -> Option<Pixels> {
    match r {
        Some((v, w, h)) => Some((v@, w, h)),
        None => None,
    }
}

/// `image::load_from_memory`, and `into_rgba8` of what it loaded: the decoded
/// image is a function of the bytes. Nothing is claimed of which bytes decode,
/// nor of the dots.
#[verifier::external_body]
pub(crate) fn decode_image(bytes: &[u8]) -> (r: Option<(Vec<u8>, u32, u32)>)
    ensures
        pixels(r) == decoded(bytes@),
{
    match image::load_from_memory(bytes) {
        Ok(img) => {
            let rgba = img.into_rgba8();
            let (w, h) = (rgba.width(), rgba.height());
            Some((rgba.into_raw(), w, h))
        },
        Err(_) => None,
    }
}

/// The picture of decoded dots; an empty one where there are none.
pub fn icon_from(p: Option<(Vec<u8>, u32, u32)>) -> (r: IconData)
    ensures
        match pixels(p) {
            Some((v, w, h)) => r.rgba@ == v && r.width == w && r.height == h,
            None => r.rgba@ == Seq::<u8>::empty() && r.width == 0 && r.height == 0,
        },
{
    match p {
        Some((rgba, width, height)) => IconData { rgba, width, height },
        None => IconData { rgba: Vec::new(), width: 0, height: 0 },
    }
}

/// The picture in an image file; an empty one where it cannot be decoded.
pub fn load_icon(bytes: &[u8]) -> (r: IconData)
    ensures
        match decoded(bytes@) {
            Some((v, w, h)) => r.rgba@ == v && r.width == w && r.height == h,
            None => r.rgba@ == Seq::<u8>::empty() && r.width == 0 && r.height == 0,
        },
{
    icon_from(decode_image(bytes))
}

} // verus!
