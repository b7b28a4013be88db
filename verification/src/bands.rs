//! The SIXEL of an image whose pixels are palette indices.

use crate::codes::{COLOR, DCS, ESC, NEXT_BAND, RASTER, RETURN, RGB_PERCENT, SEPARATOR, SIXEL, ST};
use crate::mask::BitMask;
use crate::number::write_number;
use crate::runs::{run_at, write_sixels};
use crate::types::{Header, Rgb};
use vstd::prelude::*;

verus! {

/// The pixels of an image, row by row: the palette index of each opaque pixel,
/// and `None` for a transparent one.
pub open spec fn cells_of(indices: Seq<u8>, mask: Seq<bool>, count: nat) -> Seq<Option<u8>> {
    Seq::new(count, |i: int| crate::runs::pixel_at(indices, Some(mask), i))
}

/// A channel of a color as a percentage, rounded to the nearest one.
pub open spec fn percent(channel: u8) -> nat {
    ((channel * 100 + 127) / 255) as nat
}

/// The device control introducer and the raster attributes.
pub open spec fn introducer(header: Header) -> Seq<u8> {
    seq![ESC, DCS] + crate::number::decimal(header.aspect_ratio.p1() as nat) + seq![SEPARATOR]
        + crate::number::decimal(header.background_mode.p2() as nat) + seq![
        SEPARATOR,
        crate::codes::DIGIT_ZERO,
        SIXEL,
        RASTER,
    ] + crate::number::decimal(header.aspect_ratio.vertical() as nat) + seq![SEPARATOR]
        + crate::number::decimal(1) + seq![SEPARATOR] + crate::number::decimal(header.width as nat)
        + seq![SEPARATOR] + crate::number::decimal(header.height as nat)
}

/// The definition of color register `index`.
pub open spec fn definition(index: nat, color: Rgb) -> Seq<u8> {
    seq![COLOR] + crate::number::decimal(index) + seq![SEPARATOR, RGB_PERCENT, SEPARATOR]
        + crate::number::decimal(percent(color.r)) + seq![SEPARATOR] + crate::number::decimal(
        percent(color.g),
    ) + seq![SEPARATOR] + crate::number::decimal(percent(color.b))
}

/// The definitions of the first `count` colors of `palette`.
pub open spec fn definitions(palette: Seq<Rgb>, count: nat) -> Seq<u8>
    decreases count,
{
    if count == 0 {
        Seq::empty()
    } else {
        definitions(palette, (count - 1) as nat) + definition(
            (count - 1) as nat,
            palette[count - 1],
        )
    }
}

/// Whether the pixel at column `x` of row `y` has the color `color`.
pub open spec fn has_color(
    cells: Seq<Option<u8>>,
    width: int,
    y: int,
    x: int,
    color: int,
) -> bool {
    cells[y * width + x] matches Some(index) && index == color
}

/// `1` if one of the `rows` rows from `y0` on has the color `color` at column
/// `x`, and that row is row `row` of them. `0` otherwise.
pub open spec fn row_bit(
    cells: Seq<Option<u8>>,
    width: int,
    y0: int,
    rows: int,
    color: int,
    x: int,
    row: int,
) -> int {
    if row < rows && has_color(cells, width, y0 + row, x, color) {
        1
    } else {
        0
    }
}

/// The sixel of the color `color` at column `x`: one bit for each of the `rows`
/// rows from `y0` on, the lowest for the first.
pub open spec fn sixel_value(
    cells: Seq<Option<u8>>,
    width: int,
    y0: int,
    rows: int,
    color: int,
    x: int,
) -> u8 {
    (row_bit(cells, width, y0, rows, color, x, 0) + 2 * row_bit(
        cells,
        width,
        y0,
        rows,
        color,
        x,
        1,
    ) + 4 * row_bit(cells, width, y0, rows, color, x, 2) + 8 * row_bit(
        cells,
        width,
        y0,
        rows,
        color,
        x,
        3,
    ) + 16 * row_bit(cells, width, y0, rows, color, x, 4) + 32 * row_bit(
        cells,
        width,
        y0,
        rows,
        color,
        x,
        5,
    )) as u8
}

/// The number of bands of an image of `height` rows. A band has six.
pub open spec fn band_count(height: int) -> int {
    (height + 5) / 6
}

/// The number of rows of the band `band`.
pub open spec fn band_rows(height: int, band: int) -> int {
    if height - 6 * band < 6 {
        height - 6 * band
    } else {
        6
    }
}

/// The sixels of the color `color` in the band `band`, one for each column.
pub open spec fn sixel_row(
    cells: Seq<Option<u8>>,
    width: int,
    height: int,
    band: int,
    color: int,
) -> Seq<u8> {
    Seq::new(
        width as nat,
        |x: int| sixel_value(cells, width, 6 * band, band_rows(height, band), color, x),
    )
}

/// One past the last column of `row` that is not empty.
pub open spec fn extent(row: Seq<u8>) -> nat
    decreases row.len(),
{
    if row.len() == 0 {
        0
    } else if row.last() != 0 {
        row.len()
    } else {
        extent(row.drop_last())
    }
}

/// The columns past the extent of a row are empty.
pub proof fn empty_past_extent(row: Seq<u8>)
    ensures
        extent(row) <= row.len(),
        forall|x: int| extent(row) <= x < row.len() ==> #[trigger] row[x] == 0,
    decreases row.len(),
{
    if row.len() > 0 && row.last() == 0 {
        let rest = row.drop_last();
        empty_past_extent(rest);
        assert forall|x: int| extent(row) <= x < row.len() implies #[trigger] row[x]
            == 0 by {
            if x < rest.len() {
                assert(rest[x] == 0);
            }
        }
    }
}

/// The bytes that paint one color of a band: none if the color does not occur.
pub open spec fn color_pass(color: nat, row: Seq<u8>) -> Seq<u8> {
    if extent(row) == 0 {
        Seq::empty()
    } else {
        seq![COLOR] + crate::number::decimal(color) + crate::runs::run_length_encoded(
            row.take(extent(row) as int),
        ) + seq![RETURN]
    }
}

/// The bytes that paint the first `colors` colors of the band `band`.
pub open spec fn color_passes(
    cells: Seq<Option<u8>>,
    width: int,
    height: int,
    band: int,
    colors: nat,
) -> Seq<u8>
    decreases colors,
{
    if colors == 0 {
        Seq::empty()
    } else {
        color_passes(cells, width, height, band, (colors - 1) as nat) + color_pass(
            (colors - 1) as nat,
            sixel_row(cells, width, height, band, colors - 1),
        )
    }
}

/// The bytes of the first `count` bands.
pub open spec fn band_bytes(
    cells: Seq<Option<u8>>,
    width: int,
    height: int,
    colors: nat,
    count: nat,
) -> Seq<u8>
    decreases count,
{
    if count == 0 {
        Seq::empty()
    } else {
        band_bytes(cells, width, height, colors, (count - 1) as nat) + color_passes(
            cells,
            width,
            height,
            count - 1,
            colors,
        ) + seq![NEXT_BAND]
    }
}

/// The SIXEL of an image of the pixels `cells` and the colors `palette`.
pub open spec fn sixel_of(
    palette: Seq<Rgb>,
    cells: Seq<Option<u8>>,
    header: Header,
) -> Seq<u8> {
    introducer(header) + definitions(palette, palette.len()) + band_bytes(
        cells,
        header.width as int,
        header.height as int,
        palette.len(),
        band_count(header.height as int) as nat,
    ) + seq![ESC, ST]
}

/// The buffers of the band loop in [`encode_indexed_to_sixel`].
#[derive(Clone, Debug)]
pub struct Bands {
    /// The 6-bit sixel value of every (color, column) pair in the band.
    sixels: Vec<u8>,
    /// The first and one past the last column of the color in the band, or
    /// `None` when the color does not appear in it.
    spans: Vec<Option<(usize, usize)>>,
}

impl Default for Bands {
    /// Empty buffers.
    fn default() -> (bands: Self)
        ensures
            bands.is_empty(),
    {
        Bands { sixels: Vec::new(), spans: Vec::new() }
    }
}

/// The sixel of a (color, column) pair.
spec fn sixel_at(sixels: Seq<u8>, width: int, color: int, x: int) -> u8 {
    sixels[color * width + x]
}

/// The sixels of one color.
spec fn row_of(sixels: Seq<u8>, width: int, color: int) -> Seq<u8> {
    Seq::new(width as nat, |x: int| sixel_at(sixels, width, color, x))
}

/// Whether `span` is the first and one past the last column of `row` that is
/// not empty.
spec fn spans_row(row: Seq<u8>, span: Option<(usize, usize)>) -> bool {
    match span {
        None => forall|x: int| 0 <= x < row.len() ==> row[x] == 0,
        Some((start, end)) => {
            &&& start < end <= row.len()
            &&& row[start as int] != 0
            &&& row[end - 1] != 0
            &&& forall|x: int| 0 <= x < start ==> row[x] == 0
            &&& forall|x: int| end <= x < row.len() ==> row[x] == 0
        },
    }
}

/// Where a (color, column) pair lies in relation to a range of columns of one
/// color.
proof fn flat_range(width: int, color: int, from: int, to: int, c: int, x: int)
    by (nonlinear_arith)
    requires
        0 <= x < width,
        0 <= from <= to <= width,
    ensures
        (color * width + from <= c * width + x < color * width + to) <==> (c == color && from <= x
            < to),
{
    assert(c < color ==> c * width + width <= color * width);
    assert(c > color ==> color * width + width <= c * width);
}

/// Where a (color, column) pair lies in the buffer.
proof fn flat_bound(width: int, colors: int, c: int, x: int)
    by (nonlinear_arith)
    requires
        0 <= x < width,
        0 <= c < colors,
    ensures
        0 <= c * width,
        c * width + width <= colors * width,
        0 <= c * width + x < colors * width,
{
}

/// Set `bit` in the sixels from `from` to `to`.
fn paint(sixels: &mut Vec<u8>, from: usize, to: usize, bit: u8)
    requires
        from <= to <= old(sixels)@.len(),
    ensures
        final(sixels)@.len() == old(sixels)@.len(),
        forall|i: int|
            0 <= i < old(sixels)@.len() ==> #[trigger] final(sixels)@[i] == if from <= i < to {
                old(sixels)@[i] | bit
            } else {
                old(sixels)@[i]
            },
{
    let ghost before = sixels@;
    let mut at: usize = from;
    while at < to
        invariant
            from <= at <= to <= sixels@.len(),
            sixels@.len() == before.len(),
            forall|i: int|
                0 <= i < before.len() ==> #[trigger] sixels@[i] == if from <= i < at {
                    before[i] | bit
                } else {
                    before[i]
                },
        decreases to - at,
    {
        let sixel: u8 = sixels[at];
        sixels[at] = sixel | bit;
        at += 1;
    }
}

/// Clear the sixels from `from` to `to`.
fn wipe(sixels: &mut Vec<u8>, from: usize, to: usize)
    requires
        from <= to <= old(sixels)@.len(),
    ensures
        final(sixels)@.len() == old(sixels)@.len(),
        forall|i: int|
            0 <= i < old(sixels)@.len() ==> #[trigger] final(sixels)@[i] == if from <= i < to {
                0
            } else {
                old(sixels)@[i]
            },
{
    let ghost before = sixels@;
    let mut at: usize = from;
    while at < to
        invariant
            from <= at <= to <= sixels@.len(),
            sixels@.len() == before.len(),
            forall|i: int|
                0 <= i < before.len() ==> #[trigger] sixels@[i] == if from <= i < at {
                    0
                } else {
                    before[i]
                },
        decreases to - at,
    {
        sixels[at] = 0;
        at += 1;
    }
}

/// Append the device control introducer and the raster attributes.
fn write_introducer(out: &mut Vec<u8>, header: Header)
    ensures
        final(out)@ == old(out)@ + introducer(header),
{
    let ghost start = out@;
    // DCS introducer for SIXEL: ESC P p1 ; p2 ; p3 q
    // p1=aspect ratio, p2=background mode, p3=0 (grid size default)
    out.push(ESC);
    out.push(DCS);
    write_number(out, header.aspect_ratio.to_p1_value() as usize);
    out.push(SEPARATOR);
    write_number(out, header.background_mode.to_p2_value() as usize);
    out.push(SEPARATOR);
    out.push(crate::codes::DIGIT_ZERO);
    out.push(SIXEL);
    // Set raster attributes: " Pan ; Pad ; Ph ; Pv
    // Pan:Pad is vertical:horizontal, so it mirrors the P1 macro parameter.
    // Emitting this is required for terminals and multiplexers (e.g. tmux) that
    // drop or rewrite P1 but forward the raster attributes.
    out.push(RASTER);
    write_number(out, header.aspect_ratio.pad() as usize);
    out.push(SEPARATOR);
    write_number(out, header.aspect_ratio.pan() as usize);
    out.push(SEPARATOR);
    write_number(out, header.width);
    out.push(SEPARATOR);
    write_number(out, header.height);
    assert(out@ =~= start + introducer(header));
}

/// Append the definition of every color of `palette`, in RGB percent (0-100).
fn write_definitions(out: &mut Vec<u8>, palette: &[Rgb])
    ensures
        final(out)@ == old(out)@ + definitions(palette@, palette@.len()),
{
    let ghost start = out@;
    let mut i: usize = 0;
    assert(out@ =~= start + definitions(palette@, 0));
    while i < palette.len()
        invariant
            i <= palette@.len(),
            out@ == start + definitions(palette@, i as nat),
        decreases palette@.len() - i,
    {
        let ghost before = out@;
        let c: Rgb = palette[i];
        // Round to the nearest percentage instead of introducing a dark bias.
        let r: u32 = (c.r as u32 * 100 + 127) / 255;
        let g: u32 = (c.g as u32 * 100 + 127) / 255;
        let b: u32 = (c.b as u32 * 100 + 127) / 255;
        out.push(COLOR);
        write_number(out, i);
        out.push(SEPARATOR);
        out.push(RGB_PERCENT);
        out.push(SEPARATOR);
        write_number(out, r as usize);
        out.push(SEPARATOR);
        write_number(out, g as usize);
        out.push(SEPARATOR);
        write_number(out, b as usize);
        assert(out@ =~= before + definition(i as nat, c));
        i += 1;
        assert(out@ =~= start + definitions(palette@, i as nat));
    }
}

/// The extent of a row is the end of its span.
proof fn span_gives_extent(row: Seq<u8>, span: Option<(usize, usize)>)
    requires
        spans_row(row, span),
    ensures
        extent(row) == match span {
            Some((start, end)) => end as nat,
            None => 0,
        },
    decreases row.len(),
{
    if row.len() > 0 && row.last() == 0 {
        let rest = row.drop_last();
        match span {
            None => {
                assert forall|x: int| 0 <= x < rest.len() implies rest[x] == 0 by {
                    assert(row[x] == 0);
                }
            },
            Some((start, end)) => {
                assert(row[end - 1] == rest[end - 1]);
                assert(row[start as int] == rest[start as int]);
                assert forall|x: int| 0 <= x < start implies rest[x] == 0 by {
                    assert(row[x] == 0);
                }
                assert forall|x: int| end <= x < rest.len() implies rest[x] == 0 by {
                    assert(row[x] == 0);
                }
            },
        }
        span_gives_extent(rest, span);
    }
}

/// One more row adds its own bit to a sixel, above the bits of the others.
proof fn next_row(cells: Seq<Option<u8>>, width: int, y0: int, rows: int, color: int, x: int)
    requires
        0 <= rows < 6,
    ensures
        sixel_value(cells, width, y0, rows + 1, color, x) == if has_color(
            cells,
            width,
            y0 + rows,
            x,
            color,
        ) {
            sixel_value(cells, width, y0, rows, color, x) | (1u8 << (rows as usize))
        } else {
            sixel_value(cells, width, y0, rows, color, x)
        },
{
    let value = sixel_value(cells, width, y0, rows, color, x);
    let shift = rows as usize;
    assert((1u8 << 0usize) == 1 && (1u8 << 1usize) == 2 && (1u8 << 2usize) == 4 && (1u8 << 3usize)
        == 8 && (1u8 << 4usize) == 16 && (1u8 << 5usize) == 32) by (bit_vector);
    assert(shift < 6 && value < (1u8 << shift) ==> value | (1u8 << shift) == value + (1u8
        << shift)) by (bit_vector);
    if rows == 0 {
    } else if rows == 1 {
    } else if rows == 2 {
    } else if rows == 3 {
    } else if rows == 4 {
    } else {
        assert(rows == 5);
    }
}

impl Bands {
    /// Whether the buffers are empty.
    pub closed spec fn is_empty(self) -> bool {
        self.sixels@.len() == 0 && self.spans@.len() == 0
    }

    /// Whether the buffers hold a sixel for each of `colors` colors and `width`
    /// columns, and the span of each color.
    spec fn well_formed(self, width: int, colors: int) -> bool {
        &&& self.sixels@.len() == colors * width
        &&& self.spans@.len() == colors
        &&& forall|c: int|
            0 <= c < colors ==> spans_row(
                row_of(self.sixels@, width, c),
                #[trigger] self.spans@[c],
            )
    }

    /// Whether the buffers hold the first `rows` rows of the band that starts at
    /// row `y0`, and the first `columns` columns of the row after them.
    spec fn holds(
        self,
        cells: Seq<Option<u8>>,
        width: int,
        colors: int,
        y0: int,
        rows: int,
        columns: int,
    ) -> bool {
        &&& self.well_formed(width, colors)
        &&& forall|c: int, x: int|
            0 <= c < colors && 0 <= x < width ==> #[trigger] sixel_at(self.sixels@, width, c, x)
                == sixel_value(
                cells,
                width,
                y0,
                if x < columns {
                    rows + 1
                } else {
                    rows
                },
                c,
                x,
            )
    }

    /// Whether the buffers hold the sixels of the last band of an image, or empty
    /// sixels if the image has none, and the span of each color.
    pub closed spec fn holds_last_band(
        self,
        cells: Seq<Option<u8>>,
        width: int,
        height: int,
        colors: int,
    ) -> bool {
        self.holds_band_before(cells, width, height, colors, band_count(height))
    }

    /// Whether the buffers hold the sixels of the band before `band`, or empty
    /// sixels if there is none, and the span of each color.
    spec fn holds_band_before(
        self,
        cells: Seq<Option<u8>>,
        width: int,
        height: int,
        colors: int,
        band: int,
    ) -> bool {
        if band == 0 {
            self.holds(cells, width, colors, 0, 0, 0)
        } else {
            self.holds(cells, width, colors, 6 * (band - 1), band_rows(height, band - 1), 0)
        }
    }

    /// Give the buffers `colors` rows of `width` empty sixels.
    fn reset(&mut self, width: usize, colors: usize)
        requires
            colors * width <= usize::MAX,
        ensures
            final(self).well_formed(width as int, colors as int),
            forall|c: int, x: int|
                0 <= c < colors && 0 <= x < width ==> #[trigger] sixel_at(
                    final(self).sixels@,
                    width as int,
                    c,
                    x,
                ) == 0,
    {
        self.sixels.clear();
        self.sixels.resize(colors * width, 0);
        self.spans.clear();
        self.spans.resize(colors, None);
        proof {
            assert forall|c: int| 0 <= c < colors implies spans_row(
                row_of(self.sixels@, width as int, c),
                #[trigger] self.spans@[c],
            ) by {
                assert forall|x: int| 0 <= x < width implies row_of(
                    self.sixels@,
                    width as int,
                    c,
                )[x] == 0 by {
                    flat_bound(width as int, colors as int, c, x);
                }
            }
            assert forall|c: int, x: int|
                0 <= c < colors && 0 <= x < width implies #[trigger] sixel_at(
                self.sixels@,
                width as int,
                c,
                x,
            ) == 0 by {
                flat_bound(width as int, colors as int, c, x);
            }
        }
    }

    /// Empty the sixels. Only the columns within a span can hold something.
    fn clear(&mut self, width: usize, Ghost(colors): Ghost<int>)
        requires
            old(self).well_formed(width as int, colors),
            colors * width <= usize::MAX,
        ensures
            final(self).well_formed(width as int, colors),
            forall|c: int, x: int|
                0 <= c < colors && 0 <= x < width ==> #[trigger] sixel_at(
                    final(self).sixels@,
                    width as int,
                    c,
                    x,
                ) == 0,
    {
        let mut color: usize = 0;
        let ghost before = *self;
        while color < self.spans.len()
            invariant
                color <= colors,
                colors * width <= usize::MAX,
                self.sixels@.len() == colors * width,
                self.spans@.len() == colors,
                before.well_formed(width as int, colors),
                forall|c: int| 0 <= c < color ==> #[trigger] self.spans@[c] is None,
                forall|c: int| color <= c < colors ==> #[trigger] self.spans@[c] == before.spans@[c],
                forall|c: int, x: int|
                    0 <= c < colors && 0 <= x < width ==> #[trigger] sixel_at(
                        self.sixels@,
                        width as int,
                        c,
                        x,
                    ) == if c < color {
                        0
                    } else {
                        sixel_at(before.sixels@, width as int, c, x)
                    },
            decreases colors - color,
        {
            let ghost sixels = self.sixels@;
            let span: Option<(usize, usize)> = self.spans[color];
            assert(span == before.spans@[color as int]);
            let ghost row = row_of(before.sixels@, width as int, color as int);
            if let Some((start, end)) = span {
                proof {
                    flat_bound(width as int, colors, color as int, start as int);
                }
                wipe(&mut self.sixels, color * width + start, color * width + end);
                self.spans[color] = None;
            }
            proof {
                assert forall|c: int, x: int|
                    0 <= c < colors && 0 <= x < width implies #[trigger] sixel_at(
                    self.sixels@,
                    width as int,
                    c,
                    x,
                ) == if c < color + 1 {
                    0
                } else {
                    sixel_at(before.sixels@, width as int, c, x)
                } by {
                    flat_bound(width as int, colors, c, x);
                    assert(sixel_at(sixels, width as int, c, x) == if c < color {
                        0
                    } else {
                        sixel_at(before.sixels@, width as int, c, x)
                    });
                    match span {
                        Some((start, end)) => {
                            flat_range(
                                width as int,
                                color as int,
                                start as int,
                                end as int,
                                c,
                                x,
                            );
                            if c == color && !(start <= x < end) {
                                assert(row[x] == 0);
                            }
                        },
                        None => {
                            if c == color {
                                assert(row[x] == 0);
                            }
                        },
                    }
                }
            }
            color += 1;
        }
    }

    /// Set `bit` in the columns from `from` to `to` of one color.
    fn add_run(
        &mut self,
        width: usize,
        color: usize,
        from: usize,
        to: usize,
        bit: u8,
        Ghost(colors): Ghost<int>,
    )
        requires
            old(self).well_formed(width as int, colors),
            colors * width <= usize::MAX,
            color < colors,
            from < to <= width,
            bit != 0,
        ensures
            final(self).well_formed(width as int, colors),
            forall|c: int, x: int|
                0 <= c < colors && 0 <= x < width ==> #[trigger] sixel_at(
                    final(self).sixels@,
                    width as int,
                    c,
                    x,
                ) == if c == color && from <= x < to {
                    sixel_at(old(self).sixels@, width as int, c, x) | bit
                } else {
                    sixel_at(old(self).sixels@, width as int, c, x)
                },
    {
        let ghost before = *self;
        proof {
            flat_bound(width as int, colors, color as int, from as int);
        }
        paint(&mut self.sixels, color * width + from, color * width + to, bit);
        proof {
            assert forall|c: int, x: int|
                0 <= c < colors && 0 <= x < width implies #[trigger] sixel_at(
                self.sixels@,
                width as int,
                c,
                x,
            ) == if c == color && from <= x < to {
                sixel_at(before.sixels@, width as int, c, x) | bit
            } else {
                sixel_at(before.sixels@, width as int, c, x)
            } by {
                flat_bound(width as int, colors, c, x);
                flat_range(width as int, color as int, from as int, to as int, c, x);
            }
        }
        let span: (usize, usize) = match self.spans[color] {
            Some((start, end)) => (
                if start < from {
                    start
                } else {
                    from
                },
                if end > to {
                    end
                } else {
                    to
                },
            ),
            None => (from, to),
        };
        self.spans[color] = Some(span);
        proof {
            assert forall|c: int| 0 <= c < colors implies spans_row(
                row_of(self.sixels@, width as int, c),
                #[trigger] self.spans@[c],
            ) by {
                let old_row = row_of(before.sixels@, width as int, c);
                let row = row_of(self.sixels@, width as int, c);
                assert(spans_row(old_row, before.spans@[c]));
                if c == color {
                    assert forall|x: int| 0 <= x < width implies row[x] == if from <= x < to {
                        old_row[x] | bit
                    } else {
                        old_row[x]
                    } by {
                        assert(row[x] == sixel_at(self.sixels@, width as int, c, x));
                    }
                    assert forall|x: int| 0 <= x < width implies (row[x] == 0 <==> old_row[x] == 0
                        && !(from <= x < to)) by {
                        let value = old_row[x];
                        assert(bit != 0 ==> value | bit != 0) by (bit_vector);
                    }
                } else {
                    assert(row =~= old_row) by {
                        assert forall|x: int| 0 <= x < width implies row[x] == old_row[x] by {
                            assert(row[x] == sixel_at(self.sixels@, width as int, c, x));
                        }
                    }
                }
            }
        }
    }

    /// Add row `row` of the band that starts at row `y0`. A drawing has long
    /// runs of one color, so the pass goes run by run.
    fn add_row(
        &mut self,
        indices: &[u8],
        opacity: Option<&BitMask>,
        width: usize,
        y0: usize,
        row: usize,
        Ghost(cells): Ghost<Seq<Option<u8>>>,
        Ghost(colors): Ghost<int>,
    )
        requires
            row < 6,
            (y0 + row + 1) * width <= cells.len(),
            cells.len() <= usize::MAX,
            y0 + row <= usize::MAX,
            colors * width <= usize::MAX,
            crate::runs::covers(
                indices@,
                crate::runs::opacity_view(opacity),
                0,
                cells.len() as int,
            ),
            forall|i: int|
                0 <= i < cells.len() ==> #[trigger] cells[i] == crate::runs::pixel_at(
                    indices@,
                    crate::runs::opacity_view(opacity),
                    i,
                ),
            forall|i: int|
                0 <= i < cells.len() ==> (#[trigger] cells[i] matches Some(c) ==> c < colors),
            old(self).holds(cells, width as int, colors, y0 as int, row as int, 0),
        ensures
            final(self).holds(cells, width as int, colors, y0 as int, row + 1, 0),
    {
        let ghost y = y0 + row;
        proof {
            assert((y + 1) * width == y * width + width) by (nonlinear_arith);
            assert(y * width >= 0) by (nonlinear_arith)
                requires
                    y >= 0,
                    width >= 0,
            ;
            assert(row < 6 ==> 1u8 << row != 0) by (bit_vector);
        }
        let bit: u8 = 1u8 << row;
        let first: usize = (y0 + row) * width;
        let mut x: usize = 0;
        while x < width
            invariant
                x <= width,
                row < 6,
                y == y0 + row,
                first == y * width,
                first + width <= cells.len(),
                cells.len() <= usize::MAX,
                colors * width <= usize::MAX,
                bit == 1u8 << row,
                bit != 0,
                crate::runs::covers(
                    indices@,
                    crate::runs::opacity_view(opacity),
                    0,
                    cells.len() as int,
                ),
                forall|i: int|
                    0 <= i < cells.len() ==> #[trigger] cells[i] == crate::runs::pixel_at(
                        indices@,
                        crate::runs::opacity_view(opacity),
                        i,
                    ),
                forall|i: int|
                    0 <= i < cells.len() ==> (#[trigger] cells[i] matches Some(c) ==> c < colors),
                self.holds(cells, width as int, colors, y0 as int, row as int, x as int),
            decreases width - x,
        {
            let (end, index) = run_at(indices, opacity, first, x, width);
            let ghost before = *self;
            assert forall|i: int| x <= i < end implies #[trigger] cells[first + i] == index by {
                assert(crate::runs::pixel_at(
                    indices@,
                    crate::runs::opacity_view(opacity),
                    first + i,
                ) == index);
            }
            if let Some(index) = index {
                assert(cells[first + x] == Some(index));
                self.add_run(width, index as usize, x, end, bit, Ghost(colors));
            }
            proof {
                assert forall|c: int, i: int|
                    0 <= c < colors && 0 <= i < width implies #[trigger] sixel_at(
                    self.sixels@,
                    width as int,
                    c,
                    i,
                ) == sixel_value(
                    cells,
                    width as int,
                    y0 as int,
                    if i < end {
                        row + 1
                    } else {
                        row as int
                    },
                    c,
                    i,
                ) by {
                    assert(sixel_at(before.sixels@, width as int, c, i) == sixel_value(
                        cells,
                        width as int,
                        y0 as int,
                        if i < x {
                            row + 1
                        } else {
                            row as int
                        },
                        c,
                        i,
                    ));
                    if x <= i < end {
                        next_row(cells, width as int, y0 as int, row as int, c, i);
                        assert(cells[first + i] == index);
                    }
                }
            }
            x = end;
        }
        assert forall|c: int, i: int|
            0 <= c < colors && 0 <= i < width implies #[trigger] sixel_at(
            self.sixels@,
            width as int,
            c,
            i,
        ) == sixel_value(cells, width as int, y0 as int, row + 1, c, i) by {}
    }

    /// Append each color of the band, with its runs of equal sixels as one.
    fn write(
        &self,
        out: &mut Vec<u8>,
        width: usize,
        Ghost(cells): Ghost<Seq<Option<u8>>>,
        Ghost(height): Ghost<int>,
        Ghost(band): Ghost<int>,
        Ghost(colors): Ghost<int>,
    )
        requires
            colors * width <= usize::MAX,
            self.holds(cells, width as int, colors, 6 * band, band_rows(height, band), 0),
        ensures
            final(out)@ == old(out)@ + color_passes(
                cells,
                width as int,
                height,
                band,
                colors as nat,
            ),
    {
        let ghost start = out@;
        let mut color: usize = 0;
        assert(out@ =~= start + color_passes(cells, width as int, height, band, 0));
        while color < self.spans.len()
            invariant
                color <= colors,
                colors * width <= usize::MAX,
                self.spans@.len() == colors,
                self.holds(cells, width as int, colors, 6 * band, band_rows(height, band), 0),
                out@ == start + color_passes(cells, width as int, height, band, color as nat),
            decreases colors - color,
        {
            let ghost before = out@;
            let ghost row = sixel_row(cells, width as int, height, band, color as int);
            proof {
                assert(row =~= row_of(self.sixels@, width as int, color as int)) by {
                    assert forall|x: int| 0 <= x < width implies row[x] == row_of(
                        self.sixels@,
                        width as int,
                        color as int,
                    )[x] by {
                        assert(sixel_at(self.sixels@, width as int, color as int, x) == row[x]);
                    }
                }
                assert(spans_row(row, self.spans@[color as int]));
                span_gives_extent(row, self.spans@[color as int]);
            }
            if let Some((from, end)) = self.spans[color] {
                // Select color map register
                out.push(COLOR);
                write_number(out, color);
                // The columns before the span are empty, and the ones after it
                // need nothing, since the next color starts again at column 0.
                proof {
                    flat_bound(width as int, colors, color as int, from as int);
                    assert(self.sixels@.subrange(color * width, color * width + width) =~= row) by {
                        assert forall|x: int| 0 <= x < width implies row[x] == self.sixels@[color
                            * width + x] by {
                            assert(sixel_at(self.sixels@, width as int, color as int, x) == row[x]);
                        }
                    }
                }
                let sixels: &[u8] = vstd::slice::slice_subrange(
                    self.sixels.as_slice(),
                    color * width,
                    color * width + width,
                );
                write_sixels(out, sixels, from, end);
                // Carriage return to start of band for next color overlay
                out.push(RETURN);
                assert(out@ =~= before + color_pass(color as nat, row));
            } else {
                assert(out@ =~= before + color_pass(color as nat, row));
            }
            color += 1;
            assert(out@ =~= start + color_passes(
                cells,
                width as int,
                height,
                band,
                color as nat,
            ));
        }
    }
}

/// Append the SIXEL of an image. `indices` holds the palette index of every
/// pixel that is set in `opacity_mask`.
pub fn encode_indexed_to_sixel(
    palette: &[Rgb],
    indices: &[u8],
    opacity_mask: &BitMask,
    header: Header,
    bands: &mut Bands,
    out: &mut Vec<u8>,
)
    requires
        header.width * header.height <= opacity_mask@.len(),
        header.width * header.height <= usize::MAX,
        palette@.len() * header.width <= usize::MAX,
        forall|i: int|
            0 <= i < header.width * header.height && #[trigger] opacity_mask@[i] ==> i
                < indices@.len() && indices@[i] < palette@.len(),
    ensures
        final(out)@ == old(out)@ + sixel_of(
            palette@,
            cells_of(indices@, opacity_mask@, (header.width * header.height) as nat),
            header,
        ),
        final(bands).holds_last_band(
            cells_of(indices@, opacity_mask@, (header.width * header.height) as nat),
            header.width as int,
            header.height as int,
            palette@.len() as int,
        ),
{
    let ghost start = out@;
    let width: usize = header.width;
    let height: usize = header.height;
    let ghost colors = palette@.len() as int;
    let ghost cells = cells_of(indices@, opacity_mask@, (width * height) as nat);
    write_introducer(out, header);
    write_definitions(out, palette);
    let ghost head = out@;

    let count: usize = height / 6 + if height % 6 == 0 { 0 } else { 1 };
    let palette_len: usize = palette.len();
    bands.reset(width, palette_len);

    let opacity: Option<&BitMask> = if opacity_mask.is_full(width * height) {
        None
    } else {
        Some(opacity_mask)
    };
    proof {
        assert(crate::runs::covers(
            indices@,
            crate::runs::opacity_view(opacity),
            0,
            cells.len() as int,
        )) by {
            if opacity is None && cells.len() > 0 {
                assert(opacity_mask@[cells.len() - 1]);
            }
        }
        assert(out@ =~= head + band_bytes(cells, width as int, height as int, colors as nat, 0));
    }
    let mut band: usize = 0;
    while band < count
        invariant
            count == band_count(height as int),
            band <= count,
            colors == palette@.len(),
            width == header.width,
            height == header.height,
            width * height <= usize::MAX,
            colors * width <= usize::MAX,
            cells == cells_of(indices@, opacity_mask@, (width * height) as nat),
            crate::runs::covers(
                indices@,
                crate::runs::opacity_view(opacity),
                0,
                cells.len() as int,
            ),
            forall|i: int|
                0 <= i < cells.len() ==> #[trigger] cells[i] == crate::runs::pixel_at(
                    indices@,
                    crate::runs::opacity_view(opacity),
                    i,
                ),
            forall|i: int|
                0 <= i < cells.len() ==> (#[trigger] cells[i] matches Some(c) ==> c < colors),
            bands.holds_band_before(
                cells,
                width as int,
                height as int,
                colors,
                band as int,
            ),
            out@ == head + band_bytes(
                cells,
                width as int,
                height as int,
                colors as nat,
                band as nat,
            ),
        decreases count - band,
    {
        let y0: usize = band * 6;
        let rows: usize = if height - y0 < 6 { height - y0 } else { 6 };
        // Reset only the columns touched by the previous band.
        bands.clear(width, Ghost(colors));
        // Scatter the bit of each opaque pixel into the buffer keyed by its
        // color.
        let mut row: usize = 0;
        while row < rows
            invariant
                row <= rows,
                rows <= 6,
                y0 + rows <= height,
                cells.len() == width * height,
                width * height <= usize::MAX,
                colors * width <= usize::MAX,
                crate::runs::covers(
                    indices@,
                    crate::runs::opacity_view(opacity),
                    0,
                    cells.len() as int,
                ),
                forall|i: int|
                    0 <= i < cells.len() ==> #[trigger] cells[i] == crate::runs::pixel_at(
                        indices@,
                        crate::runs::opacity_view(opacity),
                        i,
                    ),
                forall|i: int|
                    0 <= i < cells.len() ==> (#[trigger] cells[i] matches Some(c) ==> c < colors),
                bands.holds(cells, width as int, colors, y0 as int, row as int, 0),
            decreases rows - row,
        {
            proof {
                let above = y0 + row + 1;
                assert(above * width <= width * height) by (nonlinear_arith)
                    requires
                        above <= height,
                        0 <= width,
                ;
            }
            bands.add_row(indices, opacity, width, y0, row, Ghost(cells), Ghost(colors));
            row += 1;
        }
        let ghost before = out@;
        bands.write(
            out,
            width,
            Ghost(cells),
            Ghost(height as int),
            Ghost(band as int),
            Ghost(colors),
        );
        // Move to next band
        out.push(NEXT_BAND);
        band += 1;
        assert(out@ =~= head + band_bytes(
            cells,
            width as int,
            height as int,
            colors as nat,
            band as nat,
        ));
    }
    // String terminator: ESC \
    out.push(ESC);
    out.push(ST);
    assert(out@ =~= start + sixel_of(palette@, cells, header));
}

} // verus!
