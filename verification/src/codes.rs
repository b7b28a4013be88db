//! The bytes of the SIXEL format.

use vstd::prelude::*;

verus! {

/// Escape, which opens the introducer and the terminator.
pub const ESC: u8 = 0x1b;

/// `P`, which makes [`ESC`] the device control introducer.
pub const DCS: u8 = 0x50;

/// `\`, which makes [`ESC`] the string terminator.
pub const ST: u8 = 0x5c;

/// `q`, which ends the introducer and starts the sixels.
pub const SIXEL: u8 = 0x71;

/// `;`, which stands between two parameters.
pub const SEPARATOR: u8 = 0x3b;

/// `"`, which introduces the raster attributes.
pub const RASTER: u8 = 0x22;

/// `#`, which introduces a color.
pub const COLOR: u8 = 0x23;

/// `!`, which introduces a repeat count.
pub const REPEAT: u8 = 0x21;

/// `$`, which returns to the first column of the band.
pub const RETURN: u8 = 0x24;

/// `-`, which goes to the next band.
pub const NEXT_BAND: u8 = 0x2d;

/// `?`, the sixel without pixels. The other sixels follow it.
pub const EMPTY_SIXEL: u8 = 63;

/// `0`, the digit that the others follow.
pub const DIGIT_ZERO: u8 = 48;

/// `2`, which says that the components of a color are RGB percents.
pub const RGB_PERCENT: u8 = 50;

} // verus!
