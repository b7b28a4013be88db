//! The buffers of an encoder.

use crate::bands::Bands;
use crate::counted::Counted;
use crate::dither::Dither;
use crate::mask::BitMask;
use crate::types::Rgb;
use vstd::prelude::*;

verus! {

/// The buffers an encoder keeps from one image to the next.
#[derive(Clone, Debug)]
pub struct Scratch {
    /// The RGB of every pixel.
    pub rgb_pixels: Vec<Rgb>,
    /// One bit per pixel, set when the pixel is opaque.
    pub opacity_mask: BitMask,
    /// The quantized palette.
    pub palette: Vec<Rgb>,
    /// One palette index per pixel.
    pub indices: Vec<u8>,
    /// The distinct colors of the image.
    pub counted: Counted,
    /// The buffers of the band loop.
    pub bands: Bands,
    /// The buffers of the masked dithering.
    pub dither: Dither,
}

impl Default for Scratch {
    /// Empty buffers.
    fn default() -> (scratch: Self)
        ensures
            scratch.rgb_pixels@.len() == 0,
            scratch.opacity_mask@.len() == 0,
            scratch.palette@.len() == 0,
            scratch.indices@.len() == 0,
            scratch.counted.slots@.len() == 0,
            scratch.counted.colors@.len() == 0,
            scratch.counted.counts@.len() == 0,
            scratch.counted.pixels@.len() == 0,
            scratch.bands.is_empty(),
            scratch.dither.opaque_pixels@.len() == 0,
            scratch.dither.colors@.len() == 0,
            scratch.dither.current@.len() == 0,
            scratch.dither.next@.len() == 0,
    {
        Scratch {
            rgb_pixels: Vec::new(),
            opacity_mask: BitMask::default(),
            palette: Vec::new(),
            indices: Vec::new(),
            counted: Counted::default(),
            bands: Bands::default(),
            dither: Dither::default(),
        }
    }
}

} // verus!
