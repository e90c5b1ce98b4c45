//! Images the crate owns, and cropping one region of an image into another.
//!
//! Squaring a card up and placing the artwork window on it are geometry in floating point,
//! done by the application; the pixels are moved here.

use vstd::prelude::*;

use crate::vision::hash::GrayView;

verus! {

/// Width of a squared-up card: Scryfall's "normal" image size, so a hash from the camera and a
/// hash from a downloaded image are computed on the same geometry.
pub const RECTIFIED_WIDTH: u32 = 488;

/// Height of a squared-up card.
pub const RECTIFIED_HEIGHT: u32 = 680;

/// Where the illustration sits on a card, in percent of the card's width and height.
///
/// Modern frames put the art window in roughly this box. The values are deliberately inset
/// from the true edges: the hash is sensitive to how much border creeps in, and a crop that
/// sometimes includes a sliver of frame and sometimes does not produces two different hashes
/// for the same card.
pub const ART_LEFT_PERCENT: u32 = 9;
pub const ART_RIGHT_PERCENT: u32 = 91;
pub const ART_TOP_PERCENT: u32 = 11;
pub const ART_BOTTOM_PERCENT: u32 = 56;

/// A greyscale buffer the crate owns, one byte per pixel, row by row.
#[derive(Debug, Clone, PartialEq, Eq)]
pub struct GrayImage {
    pub pixels: Vec<u8>,
    pub width: u32,
    pub height: u32,
}

impl GrayImage {
    /// A black image of the given size.
    pub fn new(width: u32, height: u32) -> (r: GrayImage)
        requires
            width * height <= usize::MAX,
        ensures
            r.width == width,
            r.height == height,
            r.pixels@.len() == width * height,
            forall|k: int| 0 <= k < width * height ==> r.pixels@[k] == 0,
    {
        let n = width as usize * height as usize;
        let mut pixels: Vec<u8> = Vec::new();
        let mut i: usize = 0;
        while i < n
            invariant
                i <= n,
                pixels@.len() == i,
                forall|k: int| 0 <= k < i ==> pixels@[k] == 0,
            decreases n - i,
        {
            pixels.push(0);
            i = i + 1;
        }
        GrayImage { pixels, width, height }
    }

    /// The image as the hasher reads it.
    pub fn view(&self) -> (r: GrayView<'_>)
        ensures
            r.pixels@ == self.pixels@,
            r.width == self.width,
            r.height == self.height,
    {
        GrayView { pixels: self.pixels.as_slice(), width: self.width, height: self.height }
    }
}

/// Copies the `width` by `height` region of an image whose top-left corner is at `left`,
/// `top` into an image of its own. The region may run past the source's edges, which clamp.
pub fn crop(source: &GrayView<'_>, left: u32, top: u32, width: u32, height: u32) -> (r: GrayImage)
    requires
        width * height <= usize::MAX,
        left + width <= u32::MAX,
        top + height <= u32::MAX,
    ensures
        r.width == width,
        r.height == height,
        r.pixels@.len() == width * height,
        forall|k: int| 0 <= k < width * height ==> #[trigger] r.pixels@[k] == source.pixel(
            left + k % (width as int),
            top + k / (width as int),
        ),
{
    let mut out = GrayImage::new(width, height);
    let n = width as usize * height as usize;
    let mut k: usize = 0;
    while k < n
        invariant
            n == width * height,
            k <= n,
            out.width == width,
            out.height == height,
            out.pixels@.len() == n,
            forall|j: int| 0 <= j < k ==> #[trigger] out.pixels@[j] == source.pixel(
                left + j % (width as int),
                top + j / (width as int),
            ),
            left + width <= u32::MAX,
            top + height <= u32::MAX,
        decreases n - k,
    {
        assert(width > 0) by (nonlinear_arith)
            requires k < n, n == width * height;
        let xk = k % width as usize;
        let yk = k / width as usize;
        assert(yk < height) by (nonlinear_arith)
            requires yk as int == k as int / (width as int), k < width * height, width > 0;
        assert(xk < width);
        let x = xk as u32;
        let y = yk as u32;
        assert(x as int == k as int % (width as int) && y as int == k as int / (width as int));
        let value = source.at(left + x, top + y);
        out.pixels.set(k, value);
        k = k + 1;
    }
    out
}

/// The art window of a card of the given size: left, top, width and height, each edge at its
/// percentage of the card rounded down, and the window at least one pixel each way.
pub open spec fn art_window(width: u32, height: u32) -> (int, int, int, int) {
    let left = width * ART_LEFT_PERCENT / 100;
    let right = width * ART_RIGHT_PERCENT / 100;
    let top = height * ART_TOP_PERCENT / 100;
    let bottom = height * ART_BOTTOM_PERCENT / 100;
    let w = if right - left > 1 { right - left } else { 1 };
    let h = if bottom - top > 1 { bottom - top } else { 1 };
    (left, top, w, h)
}

/// Crops the artwork out of a squared-up card.
pub fn crop_artwork(card: &GrayView<'_>) -> (r: GrayImage)
    requires
        card.width * card.height <= usize::MAX,
    ensures
        ({
            let (left, top, w, h) = art_window(card.width, card.height);
            &&& r.width == w
            &&& r.height == h
            &&& r.pixels@.len() == w * h
            &&& forall|k: int| 0 <= k < w * h ==> #[trigger] r.pixels@[k] == card.pixel(left + k % w, top + k / w)
        }),
{
    let w64 = card.width as u64;
    let h64 = card.height as u64;
    let left = w64 * 9 / 100;
    let right = w64 * 91 / 100;
    let top = h64 * 11 / 100;
    let bottom = h64 * 56 / 100;
    let width = if right > left + 1 { right - left } else { 1 };
    let height = if bottom > top + 1 { bottom - top } else { 1 };
    assert(width <= card.width || width == 1);
    assert(height <= card.height || height == 1);
    assert(width * height <= usize::MAX) by (nonlinear_arith)
        requires
            width <= card.width || width == 1,
            height <= card.height || height == 1,
            card.width * card.height <= usize::MAX,
            width >= 1,
            height >= 1,
            usize::MAX >= 0xffff_ffff,
    ;
    crop(card, left as u32, top as u32, width as u32, height as u32)
}

} // verus!
