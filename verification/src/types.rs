//! The types that the parts of the encoder share.

use vstd::prelude::*;

verus! {

/// The longest run that one repeat introducer stands for.
pub const SIXEL_REPEAT_MAX: usize = 65_535;

/// The widest image that the encoder takes, in pixels.
pub const SIXEL_WIDTH_LIMIT: usize = 1_000_000;

/// The largest image that the encoder takes, in pixels.
pub const SIXEL_PIXEL_LIMIT: usize = 67_108_864;

/// Color type for palette entries (RGB).
#[derive(Clone, Copy, Debug, PartialEq, Eq, Structural)]
pub struct Rgb {
    pub r: u8,
    pub g: u8,
    pub b: u8,
}

/// The shape of a pixel, as height to width.
#[derive(Clone, Copy, Debug, PartialEq, Eq, Structural)]
pub enum PixelAspectRatio {
    /// As high as it is wide.
    Square,
    /// Twice as high as it is wide.
    TwoToOne,
    /// Three times as high as it is wide.
    ThreeToOne,
    /// Five times as high as it is wide.
    FiveToOne,
}

impl Default for PixelAspectRatio {
    /// Square pixels.
    fn default() -> (ratio: Self)
        ensures
            ratio == PixelAspectRatio::Square,
    {
        PixelAspectRatio::Square
    }
}

impl PixelAspectRatio {
    /// The number that stands for the ratio in the DCS introducer.
    pub open spec fn p1(self) -> u8 {
        match self {
            PixelAspectRatio::Square => 9,
            PixelAspectRatio::TwoToOne => 0,
            PixelAspectRatio::ThreeToOne => 3,
            PixelAspectRatio::FiveToOne => 2,
        }
    }

    /// The height of a pixel in units of its width.
    pub open spec fn vertical(self) -> u8 {
        match self {
            PixelAspectRatio::Square => 1,
            PixelAspectRatio::TwoToOne => 2,
            PixelAspectRatio::ThreeToOne => 3,
            PixelAspectRatio::FiveToOne => 5,
        }
    }

    /// The P1 parameter of the DCS introducer.
    pub fn to_p1_value(self) -> (value: u8)
        ensures
            value == self.p1(),
    {
        match self {
            PixelAspectRatio::Square => 9,
            PixelAspectRatio::TwoToOne => 0,
            PixelAspectRatio::ThreeToOne => 3,
            PixelAspectRatio::FiveToOne => 2,
        }
    }

    /// The vertical part of the ratio, the first raster attribute.
    pub fn pad(self) -> (value: u8)
        ensures
            value == self.vertical(),
    {
        match self {
            PixelAspectRatio::Square => 1,
            PixelAspectRatio::TwoToOne => 2,
            PixelAspectRatio::ThreeToOne => 3,
            PixelAspectRatio::FiveToOne => 5,
        }
    }

    /// The horizontal part of the ratio, the second raster attribute.
    pub fn pan(self) -> (value: u8)
        ensures
            value == 1,
    {
        1
    }
}

/// What a terminal does with the pixels that no sixel paints.
#[derive(Clone, Copy, Debug, PartialEq, Eq, Structural)]
pub enum BackgroundMode {
    /// They keep the color they have.
    Transparent,
    /// They take the background color.
    Opaque,
}

impl Default for BackgroundMode {
    /// Pixels that no sixel paints keep the color they have.
    fn default() -> (mode: Self)
        ensures
            mode == BackgroundMode::Transparent,
    {
        BackgroundMode::Transparent
    }
}

impl BackgroundMode {
    /// The number that stands for the mode in the DCS introducer.
    pub open spec fn p2(self) -> u8 {
        match self {
            BackgroundMode::Transparent => 1,
            BackgroundMode::Opaque => 0,
        }
    }

    /// The P2 parameter of the DCS introducer.
    pub fn to_p2_value(self) -> (value: u8)
        ensures
            value == self.p2(),
    {
        match self {
            BackgroundMode::Transparent => 1,
            BackgroundMode::Opaque => 0,
        }
    }
}

/// What the DCS introducer and the raster attributes announce about the image.
#[derive(Clone, Copy, Debug)]
pub struct Header {
    pub width: usize,
    pub height: usize,
    pub aspect_ratio: PixelAspectRatio,
    pub background_mode: BackgroundMode,
}

/// Why an image cannot be encoded.
#[derive(Clone, Debug, PartialEq, Eq)]
pub enum SixelError {
    /// The image is empty, or larger than the encoder takes.
    InvalidDimensions { width: usize, height: usize },
    /// The buffer does not hold 4 bytes per pixel.
    BufferSizeMismatch { expected: usize, actual: usize },
    /// The number of bytes of the image does not fit a `usize`.
    IntegerOverflow,
    /// The color quantizer refused the image.
    Quantization(String),
}

/// What [`validate_encode_dimensions`] finds wrong with the dimensions of an
/// image, if anything.
pub open spec fn dimension_error(width: int, height: int) -> Option<SixelError> {
    if width * height * 4 > usize::MAX {
        Some(SixelError::IntegerOverflow)
    } else if width == 0 || height == 0 || width > SIXEL_WIDTH_LIMIT || width * height
        > SIXEL_PIXEL_LIMIT {
        Some(SixelError::InvalidDimensions { width: width as usize, height: height as usize })
    } else {
        None
    }
}

/// Accept an image that has a pixel, is at most [`SIXEL_WIDTH_LIMIT`] wide and
/// has at most [`SIXEL_PIXEL_LIMIT`] pixels.
pub fn validate_encode_dimensions(width: usize, height: usize) -> (result: Result<(), SixelError>)
    ensures
        result == match dimension_error(width as int, height as int) {
            Some(error) => Err(error),
            None => Ok(()),
        },
{
    match width.checked_mul(height) {
        None => Err(SixelError::IntegerOverflow),
        Some(pixels) => match pixels.checked_mul(4) {
            None => Err(SixelError::IntegerOverflow),
            Some(_) => {
                if width == 0 || height == 0 || width > SIXEL_WIDTH_LIMIT || pixels
                    > SIXEL_PIXEL_LIMIT {
                    Err(SixelError::InvalidDimensions { width, height })
                } else {
                    Ok(())
                }
            },
        },
    }
}

} // verus!
