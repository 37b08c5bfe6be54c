//! An image effects engine over flat RGBA pixel buffers.
//!
//! Every effect transforms a [`PhotonImage`] in place (or builds a fresh one),
//! and carries a contract that states, byte for byte, what the new buffer
//! holds in terms of the old one. The models the contracts are written
//! against live in [`model`]; the effects themselves in [`effects`]; laws
//! that relate the effects to one another in [`laws`].

use vstd::prelude::*;

pub mod effects;
pub mod laws;
pub mod model;
mod fill;

verus! {

/// A raster image: `width * height` RGBA pixels stored row-major,
/// four bytes per pixel in channel order R, G, B, A.
pub struct PhotonImage {
    pub raw_pixels: Vec<u8>,
    pub width: u32,
    pub height: u32,
}

impl PhotonImage {
    /// The storage invariant: four bytes for each of the `width * height` pixels.
    pub open spec fn wf(&self) -> bool {
        self.raw_pixels@.len() == crate::model::buf_len(self.width, self.height)
    }

    /// Wraps a raw buffer whose length matches the given dimensions.
    pub fn new(raw_pixels: Vec<u8>, width: u32, height: u32) -> (img: PhotonImage)
        requires
            raw_pixels@.len() == crate::model::buf_len(width, height),
        ensures
            img.raw_pixels == raw_pixels,
            img.width == width,
            img.height == height,
            img.wf(),
    {
        PhotonImage { raw_pixels, width, height }
    }

    /// The image width, in pixels.
    pub fn get_width(&self) -> (w: u32)
        ensures
            w == self.width,
    {
        self.width
    }

    /// The image height, in pixels.
    pub fn get_height(&self) -> (h: u32)
        ensures
            h == self.height,
    {
        self.height
    }
}

/// A plain RGB colour value, used for thresholds and intermediate averages.
pub struct Rgb {
    pub r: u8,
    pub g: u8,
    pub b: u8,
}

impl Rgb {
    /// Bundles three channel values into a colour.
    pub fn new(r: u8, g: u8, b: u8) -> (c: Rgb)
        ensures
            c.r == r,
            c.g == g,
            c.b == b,
    {
        Rgb { r, g, b }
    }
}

} // verus!
