//! The rectangle-fill primitive behind the strip overlays. The drawing
//! itself is done by the `imageproc` crate over an `image` RGBA buffer;
//! everything else in the crate works on the raw bytes.

use crate::model::{buf_len, chan_of, col_of, row_of};
use vstd::prelude::*;

verus! {

/// Whether byte `j` of a buffer `w` pixels wide lies inside the rectangle
/// of origin `(rx, ry)`, width `rw` and height `rh`.
pub open spec fn rect_covers(w: u32, rx: u32, ry: u32, rw: u32, rh: u32, j: int) -> bool {
    rx <= col_of(w, j) < rx + rw && ry <= row_of(w, j) < ry + rh
}

/// The byte a solid RGBA colour puts at channel `ch`.
pub open spec fn rgba_at(cr: u8, cg: u8, cb: u8, ca: u8, ch: int) -> u8 {
    if ch == 0 {
        cr
    } else if ch == 1 {
        cg
    } else if ch == 2 {
        cb
    } else {
        ca
    }
}

/// Relies on `imageproc::drawing::draw_filled_rect_mut` (over an
/// `image::RgbaImage` wrapped around the buffer): every pixel of the
/// rectangle, clipped to the canvas, takes the given colour, and every
/// other pixel is untouched. The bounds keep `imageproc::rect::Rect`,
/// whose coordinates are `i32`, from overflowing, and its width and height
/// must be strictly positive.
#[verifier::external_body]
pub(crate) fn fill_rect_raw(
    pixels: &mut Vec<u8>,
    w: u32,
    h: u32,
    rx: u32,
    ry: u32,
    rw: u32,
    rh: u32,
    cr: u8,
    cg: u8,
    cb: u8,
    ca: u8,
)
    requires
        old(pixels)@.len() == buf_len(w, h),
        1 <= w <= 0x7fffffff,
        1 <= h <= 0x7fffffff,
        1 <= rw,
        1 <= rh,
        rx + rw <= 0x7fffffff,
        ry + rh <= 0x7fffffff,
    ensures
        final(pixels)@.len() == old(pixels)@.len(),
        forall|j: int|
            0 <= j < old(pixels)@.len() ==> final(pixels)@[j] == (if rect_covers(
                w,
                rx,
                ry,
                rw,
                rh,
                j,
            ) {
                rgba_at(cr, cg, cb, ca, chan_of(j))
            } else {
                old(pixels)@[j]
            }),
{
    let buf = core::mem::take(pixels);
    let mut img = image::RgbaImage::from_raw(w, h, buf).unwrap();
    let rect = imageproc::rect::Rect::at(rx as i32, ry as i32).of_size(rw, rh);
    imageproc::drawing::draw_filled_rect_mut(&mut img, rect, image::Rgba([cr, cg, cb, ca]));
    *pixels = img.into_raw();
}

} // verus!
