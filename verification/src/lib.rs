//! A SIXEL encoder that is proved correct.
//!
//! The encoder takes an RGBA image and writes the bytes that make a terminal
//! show it. `quantette` picks the palette where the image has too many colors.
//!
//! - [`encoder`] is the encoder itself and its options.
//! - [`types`] holds the types that the parts share.
//! - [`image`] says what the bytes of an image mean.
//! - [`mask`], [`counted`] and [`palette`] find the opaque pixels and the colors.
//! - [`quantize`] and [`dither`] map the pixels to a palette. [`quantizer`] is
//!   what they take from `quantette`, unproved.
//! - [`number`], [`runs`] and [`bands`] write the SIXEL. [`scratch`] is the
//!   buffers, and [`codes`] the bytes of the format.
//! - [`terminal`] is a terminal that reads a SIXEL, and proves that it shows the
//!   image. [`ascii`] and [`laws`] prove what else holds of the encoder.
//! - [`meaning`] says what becomes of an image, [`written`] what the bytes of a
//!   SIXEL are, [`parts`] what the parts compute, and [`calls`] what a call of each
//!   function returns and changes.

pub mod ascii;
pub mod bands;
pub mod calls;
pub mod codes;
pub mod counted;
pub mod dither;
pub mod encoder;
pub mod image;
pub mod laws;
pub mod mask;
pub mod meaning;
pub mod number;
pub mod palette;
pub mod parts;
pub mod quantize;
pub mod quantizer;
pub mod runs;
pub mod scratch;
pub mod terminal;
pub mod types;
pub mod written;

pub use encoder::{sixel_encode, sixel_encode_default, EncodeOptions, SixelEncoder};
pub use quantette::dither::FloydSteinberg;
pub use quantette::QuantizeMethod;
pub use types::{
    BackgroundMode, PixelAspectRatio, SixelError, SIXEL_PIXEL_LIMIT, SIXEL_REPEAT_MAX,
    SIXEL_WIDTH_LIMIT,
};
