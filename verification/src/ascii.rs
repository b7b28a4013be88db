//! The bytes of a SIXEL are ASCII.

use crate::types::{Header, Rgb, SIXEL_REPEAT_MAX};
use vstd::prelude::*;

verus! {

/// Whether every byte is ASCII.
pub open spec fn is_ascii(bytes: Seq<u8>) -> bool {
    forall|i: int| 0 <= i < bytes.len() ==> #[trigger] bytes[i] < 128
}

/// A number in decimal is ASCII.
proof fn decimal_is_ascii(n: nat)
    ensures
        is_ascii(crate::number::decimal(n)),
{
    crate::number::decimal_reads_back(n);
    assert forall|i: int| 0 <= i < crate::number::decimal(n).len() implies #[trigger]
        crate::number::decimal(n)[i] < 128 by {
        assert(crate::number::is_digit(crate::number::decimal(n)[i]));
    }
}

/// Runs of sixels are ASCII.
proof fn runs_are_ascii(sixels: Seq<u8>)
    requires
        forall|x: int| 0 <= x < sixels.len() ==> #[trigger] sixels[x] < 64,
    ensures
        is_ascii(crate::runs::run_length_encoded(sixels)),
    decreases sixels.len(),
{
    if sixels.len() > 0 {
        let most = SIXEL_REPEAT_MAX as nat;
        crate::runs::run_length_is_a_run(sixels, most);
        let count = crate::runs::run_length(sixels, most);
        let rest = sixels.skip(count as int);
        assert forall|x: int| 0 <= x < rest.len() implies #[trigger] rest[x] < 64 by {
            assert(rest[x] == sixels[x + count]);
        }
        runs_are_ascii(rest);
        decimal_is_ascii(count);
        assert(sixels[0] < 64);
        assert(is_ascii(crate::runs::run_bytes(count, sixels[0])));
    }
}

/// The passes over the colors of a band are ASCII.
proof fn color_passes_are_ascii(
    cells: Seq<Option<u8>>,
    width: int,
    height: int,
    band: int,
    colors: nat,
)
    ensures
        is_ascii(crate::bands::color_passes(cells, width, height, band, colors)),
    decreases colors,
{
    if colors > 0 {
        color_passes_are_ascii(cells, width, height, band, (colors - 1) as nat);
        decimal_is_ascii((colors - 1) as nat);
        let row = crate::bands::sixel_row(cells, width, height, band, colors - 1);
        crate::bands::empty_past_extent(row);
        runs_are_ascii(row.take(crate::bands::extent(row) as int));
    }
}

/// Bands are ASCII.
proof fn bands_are_ascii(
    cells: Seq<Option<u8>>,
    width: int,
    height: int,
    colors: nat,
    count: nat,
)
    ensures
        is_ascii(crate::bands::band_bytes(cells, width, height, colors, count)),
    decreases count,
{
    if count > 0 {
        bands_are_ascii(cells, width, height, colors, (count - 1) as nat);
        color_passes_are_ascii(cells, width, height, count - 1, colors);
    }
}

/// The definitions of colors are ASCII.
proof fn definitions_are_ascii(palette: Seq<Rgb>, count: nat)
    ensures
        is_ascii(crate::bands::definitions(palette, count)),
    decreases count,
{
    if count > 0 {
        definitions_are_ascii(palette, (count - 1) as nat);
        let color = palette[count - 1];
        decimal_is_ascii((count - 1) as nat);
        decimal_is_ascii(crate::bands::percent(color.r));
        decimal_is_ascii(crate::bands::percent(color.g));
        decimal_is_ascii(crate::bands::percent(color.b));
    }
}

/// A SIXEL is ASCII, whatever the image.
pub proof fn sixel_is_ascii(palette: Seq<Rgb>, cells: Seq<Option<u8>>, header: Header)
    ensures
        is_ascii(crate::bands::sixel_of(palette, cells, header)),
{
    decimal_is_ascii(header.aspect_ratio.p1() as nat);
    decimal_is_ascii(header.background_mode.p2() as nat);
    decimal_is_ascii(header.aspect_ratio.vertical() as nat);
    decimal_is_ascii(1);
    decimal_is_ascii(header.width as nat);
    decimal_is_ascii(header.height as nat);
    definitions_are_ascii(palette, palette.len());
    bands_are_ascii(
        cells,
        header.width as int,
        header.height as int,
        palette.len(),
        crate::bands::band_count(header.height as int) as nat,
    );
}

} // verus!
