//! What holds of the encoder as a whole.

use crate::encoder::{EncodeOptions, Indexed, SixelEncoder};
use crate::types::{Header, Rgb};
use vstd::prelude::*;

verus! {

/// A channel has the percentage nearest to it: no other is nearer.
pub proof fn percent_is_the_nearest(channel: u8, other: int)
    ensures
        -127 <= crate::bands::percent(channel) * 255 - channel * 100 <= 127,
        other != crate::bands::percent(channel) ==> other * 255 - channel * 100 > 127 || other * 255
            - channel * 100 < -127,
        crate::bands::percent(channel) <= 100,
{
}

/// A multiple of 51 is a whole percentage, which stands for it exactly.
pub proof fn multiples_of_51_are_whole_percents(channel: u8)
    requires
        channel % 51 == 0,
    ensures
        crate::bands::percent(channel) * 255 == channel * 100,
{
}

/// Colors of whole percents stay apart.
pub proof fn whole_percents_tell_colors_apart(a: Rgb, b: Rgb)
    requires
        a.r % 51 == 0 && a.g % 51 == 0 && a.b % 51 == 0,
        b.r % 51 == 0 && b.g % 51 == 0 && b.b % 51 == 0,
        crate::terminal::percents(a) == crate::terminal::percents(b),
    ensures
        a == b,
{
    multiples_of_51_are_whole_percents(a.r);
    multiples_of_51_are_whole_percents(a.g);
    multiples_of_51_are_whole_percents(a.b);
    multiples_of_51_are_whole_percents(b.r);
    multiples_of_51_are_whole_percents(b.g);
    multiples_of_51_are_whole_percents(b.b);
}

/// An encoder that has encoded other images encodes the next one as a fresh one
/// of the same settings does.
pub proof fn a_reused_encoder_matches_a_fresh_one(
    reused: SixelEncoder,
    fresh: SixelEncoder,
    rgba: Seq<u8>,
    width: usize,
    height: usize,
)
    requires
        reused.same_settings(fresh),
    ensures
        reused.encoded(rgba, width, height) == fresh.encoded(rgba, width, height),
{
}

/// A number of colors below 2 counts as 2, and one above 256 as 256.
pub proof fn max_colors_clamps_to_2_through_256(
    options: EncodeOptions,
    exact_palette: bool,
    rgba: Seq<u8>,
    width: int,
    height: int,
)
    ensures
        2 <= crate::encoder::palette_size(options.max_colors) <= 256,
        2 <= options.max_colors <= 256 ==> crate::encoder::palette_size(options.max_colors)
            == options.max_colors,
        crate::encoder::indexed_image(options, exact_palette, rgba, width, height)
            == crate::encoder::indexed_image(
            (EncodeOptions {
                max_colors: crate::encoder::palette_size(options.max_colors),
                ..options
            }),
            exact_palette,
            rgba,
            width,
            height,
        ),
{
}

/// An image of more colors than the palette may have is encoded as without an
/// exact palette.
pub proof fn more_colors_than_max_colors_go_to_the_quantizer(
    options: EncodeOptions,
    rgba: Seq<u8>,
    width: int,
    height: int,
)
    requires
        crate::image::distinct_colors(rgba, crate::image::pixel_count(rgba)).len()
            > crate::encoder::palette_size(options.max_colors),
    ensures
        crate::encoder::indexed_image(options, true, rgba, width, height)
            == crate::encoder::indexed_image(options, false, rgba, width, height),
{
}

/// An image whose colors fit in the palette keeps them with an exact palette.
pub proof fn an_exact_palette_holds_up_to_max_colors(
    options: EncodeOptions,
    rgba: Seq<u8>,
    width: int,
    height: int,
)
    requires
        crate::image::distinct_colors(rgba, crate::image::pixel_count(rgba)).len()
            <= crate::encoder::palette_size(options.max_colors),
    ensures
        crate::encoder::indexed_image(options, true, rgba, width, height)
            == crate::encoder::exact_image(rgba),
{
}

/// An image without an opaque pixel has no colors.
proof fn transparent_image_has_no_colors(rgba: Seq<u8>, count: nat)
    requires
        crate::image::none_visible(rgba),
        count <= crate::image::pixel_count(rgba),
    ensures
        crate::image::distinct_colors(rgba, count) == Seq::<Rgb>::empty(),
        crate::image::visible_colors(rgba, count) == Seq::<Rgb>::empty(),
    decreases count,
{
    if count > 0 {
        transparent_image_has_no_colors(rgba, (count - 1) as nat);
        assert(!crate::image::is_visible(rgba, count - 1));
    }
}

/// An image without an opaque pixel is encoded as one without colors, with or
/// without an exact palette.
pub proof fn a_transparent_image_is_the_same_with_an_exact_palette(
    options: EncodeOptions,
    exact_palette: bool,
    rgba: Seq<u8>,
    width: int,
    height: int,
)
    requires
        crate::image::none_visible(rgba),
        0 < crate::image::pixel_count(rgba),
    ensures
        crate::encoder::indexed_image(options, exact_palette, rgba, width, height) == (Indexed {
            palette: Seq::empty(),
            cells: Seq::new(crate::image::pixel_count(rgba), |i: int| None),
        }),
{
    let count = crate::image::pixel_count(rgba);
    transparent_image_has_no_colors(rgba, count);
    assert(!crate::image::is_visible(rgba, 0));
    let none: Seq<Option<u8>> = Seq::new(count, |i: int| None);
    assert(crate::encoder::exact_image(rgba).cells =~= none);
    assert(crate::image::visible_cells(rgba, Seq::empty()) =~= none);
}

/// An exact palette holds the color of each opaque pixel once, and no other
/// color. Each opaque pixel has its own color, and a transparent pixel has none.
pub proof fn an_exact_palette_keeps_every_color(rgba: Seq<u8>)
    requires
        crate::encoder::exact_image(rgba).palette.len() <= 256,
    ensures
        ({
            let image = crate::encoder::exact_image(rgba);
            let count = crate::image::pixel_count(rgba);
            &&& image.palette.no_duplicates()
            &&& forall|color: Rgb|
                image.palette.contains(color) <==> exists|i: int|
                    0 <= i < count && #[trigger] crate::image::is_visible(rgba, i)
                        && crate::image::color_at(rgba, i) == color
            &&& image.cells.len() == count
            &&& forall|i: int|
                0 <= i < count && #[trigger] crate::image::is_visible(rgba, i) ==> (
                image.cells[i] matches Some(index) && index < image.palette.len()
                    && image.palette[index as int] == crate::image::color_at(rgba, i))
            &&& forall|i: int|
                0 <= i < count && !(#[trigger] crate::image::is_visible(rgba, i))
                    ==> image.cells[i] is None
        }),
{
    let image = crate::encoder::exact_image(rgba);
    let count = crate::image::pixel_count(rgba);
    crate::image::distinct_colors_are_the_visible_ones(rgba, count);
    assert forall|i: int| 0 <= i < count && #[trigger] crate::image::is_visible(rgba, i) implies (
    image.cells[i] matches Some(index) && index < image.palette.len()
        && image.palette[index as int] == crate::image::color_at(rgba, i)) by {
        let color = crate::image::color_at(rgba, i);
        assert(image.palette.contains(color));
        let place = choose|k: int| 0 <= k < image.palette.len() && image.palette[k] == color;
        crate::image::place_is_index(image.palette, place);
    }
}

/// A terminal shows each opaque pixel of an image with an exact palette in the
/// percents of its own color, and paints no other pixel.
pub proof fn an_exact_palette_shows_every_color(rgba: Seq<u8>, header: Header, x: int, y: int)
    requires
        crate::encoder::exact_image(rgba).palette.len() <= 256,
        crate::image::pixel_count(rgba) == header.width * header.height,
        0 <= x < header.width,
        0 <= y < header.height,
    ensures
        ({
            let image = crate::encoder::exact_image(rgba);
            let i = y * header.width + x;
            let shown = crate::terminal::blank_terminal().read(
                crate::bands::sixel_of(image.palette, image.cells, header),
            );
            &&& shown.pixels.dom().contains((x, y)) <==> crate::image::is_visible(rgba, i)
            &&& crate::image::is_visible(rgba, i) ==> shown.registers[shown.pixels[(x, y)]]
                == crate::terminal::percents(crate::image::color_at(rgba, i))
        }),
{
    let image = crate::encoder::exact_image(rgba);
    let i = y * header.width + x;
    assert(0 <= i < header.width * header.height) by (nonlinear_arith)
        requires
            0 <= x < header.width,
            0 <= y < header.height,
            i == y * header.width + x,
    ;
    an_exact_palette_keeps_every_color(rgba);
    assert forall|k: int| 0 <= k < image.cells.len() implies (#[trigger] image.cells[k] matches Some(
        index,
    ) ==> index < image.palette.len()) by {
        if !crate::image::is_visible(rgba, k) {
            assert(image.cells[k] is None);
        }
    }
    crate::terminal::a_terminal_shows_the_image(image.palette, image.cells, header);
    if !crate::image::is_visible(rgba, i) {
        assert(image.cells[i] is None);
    }
}

/// Whatever the settings, the encoder paints the opaque pixels and no others.
pub proof fn opaque_pixels_are_painted_and_no_others(
    options: EncodeOptions,
    exact_palette: bool,
    rgba: Seq<u8>,
    width: int,
    height: int,
    i: int,
)
    requires
        0 <= i < crate::image::pixel_count(rgba),
    ensures
        crate::encoder::indexed_image(options, exact_palette, rgba, width, height).cells[i] is Some
            <==> crate::image::is_visible(rgba, i),
{
}

/// Whether two images have the same opaque pixels, of the same colors.
pub open spec fn same_visible_pixels(a: Seq<u8>, b: Seq<u8>) -> bool {
    &&& a.len() == b.len()
    &&& forall|i: int|
        0 <= i < crate::image::pixel_count(a) ==> #[trigger] crate::image::is_visible(a, i)
            == crate::image::is_visible(b, i) && (crate::image::is_visible(a, i)
            ==> crate::image::color_at(a, i) == crate::image::color_at(b, i))
}

/// Images of the same opaque pixels have the same colors.
proof fn same_colors(a: Seq<u8>, b: Seq<u8>, count: nat)
    requires
        same_visible_pixels(a, b),
        count <= crate::image::pixel_count(a),
    ensures
        crate::image::distinct_colors(a, count) == crate::image::distinct_colors(b, count),
        crate::image::visible_colors(a, count) == crate::image::visible_colors(b, count),
        forall|color: Rgb| #[trigger]
            crate::image::occurrences(a, count, color) == crate::image::occurrences(
                b,
                count,
                color,
            ),
    decreases count,
{
    if count > 0 {
        same_colors(a, b, (count - 1) as nat);
        assert(crate::image::is_visible(a, count - 1) == crate::image::is_visible(b, count - 1));
        assert forall|color: Rgb| #[trigger]
            crate::image::occurrences(a, count, color) == crate::image::occurrences(
                b,
                count,
                color,
            ) by {
            assert(crate::image::occurrences(a, (count - 1) as nat, color)
                == crate::image::occurrences(b, (count - 1) as nat, color));
        }
    }
}

/// Images of the same opaque pixels with the same indices have the same cells.
proof fn same_cells(a: Seq<u8>, b: Seq<u8>, indices: Seq<u8>)
    requires
        same_visible_pixels(a, b),
    ensures
        crate::image::visible_cells(a, indices) == crate::image::visible_cells(b, indices),
{
    assert forall|i: int| 0 <= i < crate::image::pixel_count(a) implies crate::image::visible_cells(
        a,
        indices,
    )[i] == crate::image::visible_cells(b, indices)[i] by {
        assert(crate::image::is_visible(a, i) == crate::image::is_visible(b, i));
    }
    assert(crate::image::visible_cells(a, indices) =~= crate::image::visible_cells(b, indices));
}

/// Images of the same opaque pixels are quantized alike if some are transparent.
proof fn same_masked_image(
    options: EncodeOptions,
    size: u16,
    a: Seq<u8>,
    b: Seq<u8>,
    width: int,
)
    requires
        same_visible_pixels(a, b),
        0 < width,
    ensures
        crate::encoder::masked_image(a, width, options.quantize_method, size, options.diffusion)
            == crate::encoder::masked_image(
            b,
            width,
            options.quantize_method,
            size,
            options.diffusion,
        ),
{
    let count = crate::image::pixel_count(a);
    same_colors(a, b, count);
    let opaque = crate::image::visible_colors(a, count);
    let oklab_a = crate::quantize::in_oklab(crate::image::colors_of(a));
    let oklab_b = crate::quantize::in_oklab(crate::image::colors_of(b));
    let seen_a = Seq::new(count, |i: int| crate::image::is_visible(a, i));
    let seen_b = Seq::new(count, |i: int| crate::image::is_visible(b, i));
    let zeros = Seq::new(count, |i: int| 0u8);
    let palette = crate::quantizer::trained_palette(options.quantize_method, size, opaque);
    assert forall|i: int| 0 <= i < oklab_a.len() implies #[trigger] seen_a[i] == seen_b[i] && (
    seen_a[i] ==> oklab_a[i] == oklab_b[i]) by {
        assert(crate::image::is_visible(a, i) == crate::image::is_visible(b, i));
    }
    crate::dither::hidden_colors_do_not_matter(
        oklab_a,
        seen_a,
        oklab_b,
        seen_b,
        width,
        palette,
        options.diffusion,
        zeros,
    );
    same_cells(
        a,
        b,
        crate::dither::mapped_indices(oklab_a, seen_a, width, palette, options.diffusion, zeros),
    );
    same_cells(a, b, Seq::empty());
}

/// Images of the same opaque pixels, which are all of them, are quantized alike.
proof fn same_opaque_image(a: Seq<u8>, b: Seq<u8>)
    requires
        same_visible_pixels(a, b),
        crate::image::all_visible(a),
    ensures
        crate::image::colors_of(a) == crate::image::colors_of(b),
        crate::encoder::color_counts(a) == crate::encoder::color_counts(b),
        crate::encoder::color_indices(a) == crate::encoder::color_indices(b),
{
    let count = crate::image::pixel_count(a);
    same_colors(a, b, count);
    assert forall|i: int| 0 <= i < count implies crate::image::color_at(a, i)
        == crate::image::color_at(b, i) by {
        assert(crate::image::is_visible(a, i));
    }
    assert(crate::image::colors_of(a) =~= crate::image::colors_of(b));
    assert(crate::encoder::color_counts(a) =~= crate::encoder::color_counts(b));
    assert(crate::encoder::color_indices(a) =~= crate::encoder::color_indices(b));
}

/// The RGB values of transparent pixels do not change the encoded image, nor does
/// the alpha of a pixel that stays on its side of the threshold. This holds with
/// an exact palette, with any method, and with or without error diffusion.
pub proof fn hidden_rgb_does_not_change_the_encoded_image(
    options: EncodeOptions,
    exact_palette: bool,
    a: Seq<u8>,
    b: Seq<u8>,
    width: int,
    height: int,
)
    requires
        0 < width,
        same_visible_pixels(a, b),
    ensures
        crate::encoder::indexed_image(options, exact_palette, a, width, height)
            == crate::encoder::indexed_image(options, exact_palette, b, width, height),
{
    let count = crate::image::pixel_count(a);
    let size = crate::encoder::palette_size(options.max_colors);
    same_colors(a, b, count);
    assert(crate::image::all_visible(a) == crate::image::all_visible(b)) by {
        if crate::image::all_visible(a) {
            assert forall|i: int| 0 <= i < count implies #[trigger] crate::image::is_visible(
                b,
                i,
            ) by {
                assert(crate::image::is_visible(a, i));
            }
        } else {
            let i = choose|i: int| 0 <= i < count && !(#[trigger] crate::image::is_visible(a, i));
            assert(!crate::image::is_visible(b, i));
        }
    }
    let exact_a = crate::encoder::exact_image(a);
    let exact_b = crate::encoder::exact_image(b);
    assert(exact_a == exact_b) by {
        assert forall|i: int| 0 <= i < count implies exact_a.cells[i] == exact_b.cells[i] by {
            assert(crate::image::is_visible(a, i) == crate::image::is_visible(b, i));
        }
        assert(exact_a.cells =~= exact_b.cells);
    }
    same_masked_image(options, size, a, b, width);
    if crate::image::all_visible(a) {
        same_opaque_image(a, b);
        let colors = crate::image::distinct_colors(a, count);
        same_cells(
            a,
            b,
            crate::quantize::counted_indices(
                colors,
                crate::encoder::color_counts(a),
                crate::encoder::color_indices(a),
                size,
            ),
        );
        let dedup = if options.diffusion is None {
            Some(true)
        } else {
            None
        };
        same_cells(
            a,
            b,
            crate::quantizer::quantized_image(
                options.quantize_method,
                size,
                options.diffusion,
                dedup,
                width as u32,
                height as u32,
                crate::image::colors_of(a),
            ).1,
        );
    }
}

/// The RGB values of transparent pixels do not change the SIXEL.
pub proof fn hidden_rgb_does_not_change_encoded_output(
    encoder: SixelEncoder,
    a: Seq<u8>,
    b: Seq<u8>,
    width: usize,
    height: usize,
)
    requires
        0 < width,
        same_visible_pixels(a, b),
    ensures
        encoder.encoded(a, width, height) == encoder.encoded(b, width, height),
{
    hidden_rgb_does_not_change_the_encoded_image(
        encoder.options(),
        encoder.exact_palette(),
        a,
        b,
        width as int,
        height as int,
    );
}

} // verus!
