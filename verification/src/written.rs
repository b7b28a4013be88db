//! What the bytes of a SIXEL are.

use crate::types::{BackgroundMode, Header, PixelAspectRatio, Rgb};
use vstd::prelude::*;

verus! {

/// `count` sixels of the value `bits`.
pub open spec fn copies(count: nat, bits: u8) -> Seq<u8> {
    Seq::new(count, |i: int| bits)
}

/// A number in decimal is its digit if it has one, and otherwise the number
/// without its last digit and then that digit. `0` is byte 48.
pub proof fn the_last_digit_comes_last(n: nat, last: nat)
    requires
        last < 10,
    ensures
        crate::number::decimal(last) == seq![(48 + last) as u8],
        n > 0 ==> crate::number::decimal(n * 10 + last) == crate::number::decimal(n) + seq![
            (48 + last) as u8,
        ],
{
    assert(n > 0 ==> crate::number::decimal(n * 10 + last) =~= crate::number::decimal(n) + seq![
        (48 + last) as u8,
    ]);
}

/// Up to 3 equal sixels are written one by one. More are written as one repeat,
/// which is `!`, the count and the sixel. The sixel without pixels is `?`, byte
/// 63. No sixels are no bytes.
pub proof fn equal_sixels_are_one_repeat(count: nat, bits: u8)
    requires
        count <= 65_535,
        bits < 64,
    ensures
        count <= 3 ==> crate::runs::run_length_encoded(copies(count, bits)) == copies(
            count,
            (63 + bits) as u8,
        ),
        count > 3 ==> crate::runs::run_length_encoded(copies(count, bits)) == seq![0x21u8]
            + crate::number::decimal(count) + seq![(63 + bits) as u8],
{
    let sixels = copies(count, bits);
    if count == 0 {
        assert(crate::runs::run_length_encoded(sixels) =~= copies(0, (63 + bits) as u8));
    } else {
        crate::runs::run_length_is(sixels, 65_535, count);
        assert(sixels.skip(count as int) =~= Seq::<u8>::empty());
        assert(crate::runs::run_length_encoded(Seq::<u8>::empty()) =~= Seq::<u8>::empty());
        assert(crate::runs::run_length_encoded(sixels) =~= crate::runs::run_bytes(count, bits));
        assert(crate::runs::run_bytes(count, bits) =~= if count > 3 {
            seq![0x21u8] + crate::number::decimal(count) + seq![(63 + bits) as u8]
        } else {
            copies(count, (63 + bits) as u8)
        });
    }
}

/// Sixels that differ are never in one run: they are written as those before
/// them and then those after.
pub proof fn a_change_of_sixel_ends_a_run(before: Seq<u8>, after: Seq<u8>)
    requires
        before.len() > 0,
        after.len() > 0,
        before.last() != after[0],
    ensures
        crate::runs::run_length_encoded(before + after) == crate::runs::run_length_encoded(before)
            + crate::runs::run_length_encoded(after),
    decreases before.len(),
{
    let whole = before + after;
    let most = 65_535nat;
    let count = crate::runs::run_length(before, most);
    crate::runs::run_length_is_a_run(before, most);
    run_goes_on(before, most);
    crate::runs::run_length_is(whole, most, count);
    let rest = before.skip(count as int);
    assert(whole.skip(count as int) =~= rest + after);
    let first = crate::runs::run_bytes(count, before[0]);
    if rest.len() == 0 {
        assert(rest + after =~= after);
        assert(crate::runs::run_length_encoded(rest) =~= Seq::<u8>::empty());
        assert(crate::runs::run_length_encoded(before) =~= first);
    } else {
        a_change_of_sixel_ends_a_run(rest, after);
        assert(crate::runs::run_length_encoded(whole) =~= first + crate::runs::run_length_encoded(
            rest,
        ) + crate::runs::run_length_encoded(after));
    }
}

/// A run stops only at the limit, at the end or at another sixel.
proof fn run_goes_on(sixels: Seq<u8>, most: nat)
    requires
        sixels.len() > 0,
        most > 0,
    ensures
        ({
            let count = crate::runs::run_length(sixels, most);
            count == most || count == sixels.len() || sixels[count as int] != sixels[0]
        }),
    decreases most,
{
    if !(sixels.len() == 1 || most == 1 || sixels[1] != sixels[0]) {
        run_goes_on(sixels.skip(1), (most - 1) as nat);
        crate::runs::run_length_is_a_run(sixels.skip(1), (most - 1) as nat);
    }
}

/// A run of 65,535 sixels is full: what comes after it is written by itself, even
/// if it is more of the same.
pub proof fn a_full_run_stands_alone(bits: u8, after: Seq<u8>)
    ensures
        crate::runs::run_length_encoded(copies(65_535, bits) + after)
            == crate::runs::run_length_encoded(copies(65_535, bits))
            + crate::runs::run_length_encoded(after),
{
    let full = copies(65_535, bits);
    let whole = full + after;
    crate::runs::run_length_is(whole, 65_535, 65_535);
    crate::runs::run_length_is(full, 65_535, 65_535);
    assert(whole.skip(65_535) =~= after);
    assert(full.skip(65_535) =~= Seq::<u8>::empty());
    assert(crate::runs::run_length_encoded(Seq::<u8>::empty()) =~= Seq::<u8>::empty());
    assert(crate::runs::run_length_encoded(full) =~= crate::runs::run_bytes(65_535, bits));
}

/// Whether row `row` of a sixel has a pixel: the lowest bit is the first row.
pub open spec fn has_pixel(bits: u8, row: int) -> bool {
    (bits as int / vstd::arithmetic::power2::pow2(row as nat) as int) % 2 == 1
}

/// Whether the pixel at column `x` of row `y` has the palette index `color`.
pub open spec fn is_of(
    cells: Seq<Option<u8>>,
    width: int,
    height: int,
    y: int,
    x: int,
    color: int,
) -> bool {
    &&& y < height
    &&& cells[y * width + x] matches Some(index) && index == color
}

/// Whether `row` is the sixels of the color `color` in the band `band`, up to the
/// last one that has a pixel.
pub open spec fn is_row(
    row: Seq<u8>,
    cells: Seq<Option<u8>>,
    width: int,
    height: int,
    band: int,
    color: int,
) -> bool {
    &&& row.len() <= width
    &&& row.len() > 0 ==> row.last() != 0
    &&& forall|x: int| 0 <= x < row.len() ==> #[trigger] row[x] < 64
    &&& forall|x: int, r: int|
        0 <= x < row.len() && 0 <= r < 6 ==> #[trigger] has_pixel(row[x], r) == is_of(
            cells,
            width,
            height,
            6 * band + r,
            x,
            color,
        )
    &&& forall|x: int, y: int|
        row.len() <= x < width && 6 * band <= y < 6 * band + 6 ==> !(#[trigger] is_of(
            cells,
            width,
            height,
            y,
            x,
            color,
        ))
}

/// The bytes before the colors: escape, `P`, the number of the aspect ratio, `;`,
/// that of the background mode, `;0q"`, the ratio of the height and the width of
/// a pixel, and the width and the height of the image.
pub open spec fn opening(header: Header) -> Seq<u8> {
    seq![0x1bu8, 0x50u8] + crate::number::decimal(header.aspect_ratio.p1() as nat) + seq![0x3bu8]
        + crate::number::decimal(header.background_mode.p2() as nat) + seq![
        0x3bu8,
        0x30u8,
        0x71u8,
        0x22u8,
    ] + crate::number::decimal(header.aspect_ratio.vertical() as nat) + seq![
        0x3bu8,
        0x31u8,
        0x3bu8,
    ] + crate::number::decimal(header.width as nat) + seq![0x3bu8] + crate::number::decimal(
        header.height as nat,
    )
}

/// The bytes that give register `k` a color: `#`, the register, `;2;` and the
/// three percents.
pub open spec fn color_line(k: int, color: Rgb) -> Seq<u8> {
    seq![0x23u8] + crate::number::decimal(k as nat) + seq![0x3bu8, 0x32u8, 0x3bu8]
        + crate::number::decimal(crate::bands::percent(color.r)) + seq![0x3bu8]
        + crate::number::decimal(crate::bands::percent(color.g)) + seq![0x3bu8]
        + crate::number::decimal(crate::bands::percent(color.b))
}

/// The bytes that paint a row of sixels in the color of register `k`: `#`, the
/// register, the runs of the row, and `$`. An empty row takes none.
pub open spec fn pass_line(k: int, row: Seq<u8>) -> Seq<u8> {
    if row.len() == 0 {
        Seq::empty()
    } else {
        seq![0x23u8] + crate::number::decimal(k as nat) + crate::runs::run_length_encoded(row)
            + seq![0x24u8]
    }
}

/// The passes of a band, one for each of `colors` colors, and `-`.
pub open spec fn band_lines(rows: spec_fn(int) -> Seq<u8>, colors: nat) -> Seq<u8> {
    Seq::new(colors, |k: int| pass_line(k, rows(k))).flatten() + seq![0x2du8]
}

/// The sixels of a color, up to the last one that has a pixel.
spec fn trimmed(cells: Seq<Option<u8>>, width: int, height: int, band: int, color: int) -> Seq<
    u8,
> {
    let row = crate::bands::sixel_row(cells, width, height, band, color);
    row.take(crate::bands::extent(row) as int)
}

/// The bits of a sixel.
proof fn bits_of_sixel(
    cells: Seq<Option<u8>>,
    width: int,
    height: int,
    band: int,
    color: int,
    x: int,
    r: int,
)
    requires
        0 <= r < 6,
    ensures
        ({
            let bits = crate::bands::sixel_value(
                cells,
                width,
                6 * band,
                crate::bands::band_rows(height, band),
                color,
                x,
            );
            &&& bits < 64
            &&& has_pixel(bits, r) == is_of(cells, width, height, 6 * band + r, x, color)
            &&& is_of(cells, width, height, 6 * band + r, x, color) ==> bits != 0
        }),
{
    vstd::arithmetic::power2::lemma2_to64();
    let bits = crate::bands::sixel_value(
        cells,
        width,
        6 * band,
        crate::bands::band_rows(height, band),
        color,
        x,
    );
    if r == 0 {
        assert(vstd::arithmetic::power2::pow2(r as nat) == 1);
        assert(has_pixel(bits, r) == ((bits as int / 1) % 2 == 1));
    } else if r == 1 {
        assert(has_pixel(bits, r) == ((bits / 2) % 2 == 1));
    } else if r == 2 {
        assert(has_pixel(bits, r) == ((bits / 4) % 2 == 1));
    } else if r == 3 {
        assert(has_pixel(bits, r) == ((bits / 8) % 2 == 1));
    } else if r == 4 {
        assert(has_pixel(bits, r) == ((bits / 16) % 2 == 1));
    } else {
        assert(has_pixel(bits, r) == ((bits / 32) % 2 == 1));
    }
}

/// The sixels of a color are those of its pixels.
proof fn trimmed_is_row(
    cells: Seq<Option<u8>>,
    width: int,
    height: int,
    band: int,
    color: int,
)
    requires
        0 <= width,
    ensures
        is_row(trimmed(cells, width, height, band, color), cells, width, height, band, color),
{
    let full = crate::bands::sixel_row(cells, width, height, band, color);
    let row = trimmed(cells, width, height, band, color);
    crate::bands::empty_past_extent(full);
    last_is_not_empty(full);
    assert forall|x: int| 0 <= x < row.len() implies #[trigger] row[x] < 64 by {
        bits_of_sixel(cells, width, height, band, color, x, 0);
    }
    assert forall|x: int, r: int| 0 <= x < row.len() && 0 <= r < 6 implies #[trigger] has_pixel(
        row[x],
        r,
    ) == is_of(cells, width, height, 6 * band + r, x, color) by {
        bits_of_sixel(cells, width, height, band, color, x, r);
    }
    assert forall|x: int, y: int|
        row.len() <= x < width && 6 * band <= y < 6 * band + 6 implies !(#[trigger] is_of(
        cells,
        width,
        height,
        y,
        x,
        color,
    )) by {
        bits_of_sixel(cells, width, height, band, color, x, y - 6 * band);
        assert(full[x] == 0);
    }
}

/// The last column before the extent is not empty.
proof fn last_is_not_empty(row: Seq<u8>)
    ensures
        crate::bands::extent(row) > 0 ==> row[crate::bands::extent(row) - 1] != 0,
    decreases row.len(),
{
    if row.len() > 0 && row.last() == 0 {
        last_is_not_empty(row.drop_last());
        crate::bands::empty_past_extent(row.drop_last());
    }
}

/// The definitions of some colors are their lines.
proof fn definitions_are_lines(palette: Seq<Rgb>, count: nat)
    requires
        count <= palette.len(),
    ensures
        crate::bands::definitions(palette, count) == Seq::new(
            count,
            |k: int| color_line(k, palette[k]),
        ).flatten(),
    decreases count,
{
    let lines = Seq::new(count, |k: int| color_line(k, palette[k]));
    if count > 0 {
        let fewer = Seq::new((count - 1) as nat, |k: int| color_line(k, palette[k]));
        definitions_are_lines(palette, (count - 1) as nat);
        assert(lines =~= fewer.push(color_line(count - 1, palette[count - 1])));
        fewer.lemma_flatten_push(color_line(count - 1, palette[count - 1]));
        assert(crate::bands::definition((count - 1) as nat, palette[count - 1]) =~= color_line(
            count - 1,
            palette[count - 1],
        ));
    }
}

/// The passes over some colors are their lines.
proof fn passes_are_lines(
    cells: Seq<Option<u8>>,
    width: int,
    height: int,
    band: int,
    colors: nat,
)
    ensures
        crate::bands::color_passes(cells, width, height, band, colors) == Seq::new(
            colors,
            |k: int| pass_line(k, trimmed(cells, width, height, band, k)),
        ).flatten(),
    decreases colors,
{
    let lines = Seq::new(colors, |k: int| pass_line(k, trimmed(cells, width, height, band, k)));
    if colors > 0 {
        let last = colors - 1;
        let row = crate::bands::sixel_row(cells, width, height, band, last);
        let line = pass_line(last, trimmed(cells, width, height, band, last));
        let fewer = Seq::new(
            last as nat,
            |k: int| pass_line(k, trimmed(cells, width, height, band, k)),
        );
        passes_are_lines(cells, width, height, band, last as nat);
        assert(lines =~= fewer.push(line));
        fewer.lemma_flatten_push(line);
        crate::bands::empty_past_extent(row);
        assert(crate::bands::color_pass(last as nat, row) =~= line);
    }
}

/// The bytes of some bands are their lines.
proof fn bands_are_lines(
    cells: Seq<Option<u8>>,
    width: int,
    height: int,
    colors: nat,
    count: nat,
    rows: spec_fn(int, int) -> Seq<u8>,
)
    requires
        rows == (|band: int, k: int| trimmed(cells, width, height, band, k)),
    ensures
        crate::bands::band_bytes(cells, width, height, colors, count) == Seq::new(
            count,
            |band: int| band_lines(|k: int| rows(band, k), colors),
        ).flatten(),
    decreases count,
{
    let lines = Seq::new(count, |band: int| band_lines(|k: int| rows(band, k), colors));
    if count > 0 {
        let last = count - 1;
        let fewer = Seq::new(
            last as nat,
            |band: int| band_lines(|k: int| rows(band, k), colors),
        );
        let line = band_lines(|k: int| rows(last, k), colors);
        bands_are_lines(cells, width, height, colors, last as nat, rows);
        passes_are_lines(cells, width, height, last, colors);
        assert(Seq::new(colors, |k: int| pass_line(k, trimmed(cells, width, height, last, k)))
            =~= Seq::new(colors, |k: int| pass_line(k, (|k: int| rows(last, k))(k))));
        assert(lines =~= fewer.push(line));
        fewer.lemma_flatten_push(line);
        assert(crate::bands::band_bytes(cells, width, height, colors, count) =~= fewer.flatten()
            + line);
    }
}

/// The SIXEL of an image is its opening, a line for each color of the palette,
/// the bands from top to bottom and the terminator, escape and `\`. A band is six
/// rows of the image. It has a pass for each color that occurs in it, in the order
/// of the palette, and a pass has the sixels of that color up to the last one that
/// has a pixel. `rows` are these sixels, by band and color.
pub proof fn a_sixel_is_its_colors_and_its_bands(
    palette: Seq<Rgb>,
    cells: Seq<Option<u8>>,
    header: Header,
    bands: nat,
) -> (rows: spec_fn(int, int) -> Seq<u8>)
    requires
        header.height <= 6 * bands < header.height + 6,
    ensures
        forall|band: int, k: int|
            is_row(
                #[trigger] rows(band, k),
                cells,
                header.width as int,
                header.height as int,
                band,
                k,
            ),
        crate::bands::sixel_of(palette, cells, header) == opening(header) + Seq::new(
            palette.len(),
            |k: int| color_line(k, palette[k]),
        ).flatten() + Seq::new(
            bands,
            |band: int| band_lines(|k: int| rows(band, k), palette.len()),
        ).flatten() + seq![0x1bu8, 0x5cu8],
{
    let width = header.width as int;
    let height = header.height as int;
    let rows = |band: int, k: int| trimmed(cells, width, height, band, k);
    assert forall|band: int, k: int|
        is_row(#[trigger] rows(band, k), cells, width, height, band, k) by {
        trimmed_is_row(cells, width, height, band, k);
    }
    definitions_are_lines(palette, palette.len());
    bands_are_lines(cells, width, height, palette.len(), bands, rows);
    assert(crate::bands::band_count(height) == bands);
    the_last_digit_comes_last(0, 1);
    assert(crate::bands::introducer(header) =~= opening(header));
    rows
}

/// The numbers that stand for an aspect ratio: the parameter of the introducer
/// that picks it, and the height of a pixel of width 1.
pub proof fn aspect_ratios_have_their_numbers(ratio: PixelAspectRatio)
    ensures
        ratio is Square <==> ratio.p1() == 9,
        ratio is TwoToOne <==> ratio.p1() == 0,
        ratio is ThreeToOne <==> ratio.p1() == 3,
        ratio is FiveToOne <==> ratio.p1() == 2,
        ratio is Square <==> ratio.vertical() == 1,
        ratio is TwoToOne <==> ratio.vertical() == 2,
        ratio is ThreeToOne <==> ratio.vertical() == 3,
        ratio is FiveToOne <==> ratio.vertical() == 5,
{
}

/// The numbers that stand for a background mode.
pub proof fn background_modes_have_their_numbers(mode: BackgroundMode)
    ensures
        mode is Transparent <==> mode.p2() == 1,
        mode is Opaque <==> mode.p2() == 0,
{
}

} // verus!
