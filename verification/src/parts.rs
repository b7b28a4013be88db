//! What the parts of the encoder do.

use crate::counted::Counted;
use crate::types::Rgb;
use quantette::deps::palette::Oklab;
use quantette::dither::FloydSteinberg;
use quantette::QuantizeMethod;
use vstd::prelude::*;

verus! {

/// A row is visited column by column, from the left if its number is even and
/// from the right if it is odd.
pub proof fn rows_turn_at_the_end(width: int, y: int, step: int)
    requires
        0 <= step < width,
    ensures
        y % 2 == 0 ==> crate::dither::serpentine(width, y, step) == step,
        y % 2 == 1 ==> crate::dither::serpentine(width, y, step) + step == width - 1,
{
}

/// The error of a pixel goes 7 sixteenths to the next pixel of its row, in the
/// direction of the row, and 3, 5 and 1 sixteenths to the pixels behind, below and
/// ahead of it in the row below. The errors of a row have a place on either side
/// of it, so that of column `x` is at `x + 1`.
pub proof fn error_goes_to_four_neighbors(
    current: Seq<Oklab>,
    next: Seq<Oklab>,
    y: int,
    x: int,
    color: Oklab,
    found: Oklab,
    strength: Oklab,
    share: Oklab,
    ahead: int,
    behind: int,
    place: int,
)
    requires
        0 <= x,
        x + 2 < current.len(),
        x + 2 < next.len(),
        share == crate::quantizer::oklab_quotient(
            crate::quantizer::oklab_product(
                crate::quantizer::oklab_difference(color, found),
                strength,
            ),
            crate::quantizer::oklab_level(16),
        ),
        y % 2 == 0 ==> ahead == x + 2 && behind == x,
        y % 2 == 1 ==> ahead == x && behind == x + 2,
    ensures
        crate::dither::sixteenth(color, found, strength) == share,
        ({
            let after = crate::dither::row_after(current, y, x, share);
            &&& after.len() == current.len()
            &&& 0 <= place < current.len() ==> after[place] == if place == ahead {
                crate::quantizer::oklab_sum(
                    current[place],
                    crate::quantizer::oklab_product(share, crate::quantizer::oklab_level(7)),
                )
            } else {
                current[place]
            }
        }),
        ({
            let after = crate::dither::row_below_after(next, y, x, share);
            &&& after.len() == next.len()
            &&& 0 <= place < next.len() ==> after[place] == if place == behind {
                crate::quantizer::oklab_sum(
                    next[place],
                    crate::quantizer::oklab_product(share, crate::quantizer::oklab_level(3)),
                )
            } else if place == x + 1 {
                crate::quantizer::oklab_sum(
                    next[place],
                    crate::quantizer::oklab_product(share, crate::quantizer::oklab_level(5)),
                )
            } else if place == ahead {
                crate::quantizer::oklab_sum(next[place], share)
            } else {
                next[place]
            }
        }),
{
}

/// The first row starts without error, for every column and one more on either
/// side.
pub proof fn a_row_starts_without_error(width: int, place: int)
    requires
        0 <= place < width + 2,
    ensures
        crate::dither::no_error(width).len() == width + 2,
        crate::dither::no_error(width)[place] == crate::quantizer::oklab_level(0),
{
}

/// Without error diffusion, every visible pixel takes the palette color nearest to
/// its own, and every other index is left.
pub proof fn visible_pixels_take_the_nearest_color(
    colors: Seq<Oklab>,
    visible: Seq<bool>,
    width: int,
    palette: Seq<Oklab>,
    indices: Seq<u8>,
    i: int,
)
    requires
        0 <= i < indices.len(),
    ensures
        ({
            let mapped = crate::dither::mapped_indices(
                colors,
                visible,
                width,
                palette,
                None,
                indices,
            );
            &&& mapped.len() == indices.len()
            &&& i < colors.len() && visible[i] ==> mapped[i] == crate::quantizer::nearest(
                palette,
                colors[i],
            )
            &&& i >= colors.len() || !visible[i] ==> mapped[i] == indices[i]
        }),
{
}

/// Colors are converted to Oklab and back one by one.
pub proof fn colors_are_converted_one_by_one(srgb: Seq<Rgb>, oklab: Seq<Oklab>, i: int)
    ensures
        crate::quantize::in_oklab(srgb).len() == srgb.len(),
        crate::quantize::in_srgb(oklab).len() == oklab.len(),
        0 <= i < srgb.len() ==> crate::quantize::in_oklab(srgb)[i] == crate::quantizer::oklab_of(
            srgb[i],
        ),
        0 <= i < oklab.len() ==> crate::quantize::in_srgb(oklab)[i] == crate::quantizer::srgb_of(
            oklab[i],
        ),
{
}

/// Colors that are quantized with their counts get Wu's palette, and every pixel
/// the index of its color.
pub proof fn pixels_take_the_index_of_their_color(
    colors: Seq<Rgb>,
    oklab: Seq<Oklab>,
    counts: Seq<u32>,
    pixels: Seq<u32>,
    size: u16,
    i: int,
    k: int,
)
    requires
        oklab.len() == colors.len(),
        forall|c: int|
            0 <= c < colors.len() ==> #[trigger] oklab[c] == crate::quantizer::oklab_of(colors[c]),
        0 <= i < pixels.len(),
        0 <= k < crate::quantizer::wu_quantized(oklab, counts, size).0.len(),
    ensures
        ({
            let wu = crate::quantizer::wu_quantized(oklab, counts, size);
            let palette = crate::quantize::counted_palette(colors, counts, size);
            let indices = crate::quantize::counted_indices(colors, counts, pixels, size);
            &&& palette.len() == wu.0.len()
            &&& palette[k] == crate::quantizer::srgb_of(wu.0[k])
            &&& indices.len() == pixels.len()
            &&& indices[i] == wu.1[pixels[i] as int]
        }),
{
    assert(crate::quantize::in_oklab(colors) =~= oklab);
}

/// The colors of the visible pixels, in their order.
pub open spec fn seen_colors(pixels: Seq<Rgb>, visible: Seq<bool>) -> Seq<Rgb> {
    Seq::new(pixels.len(), |i: int| i).filter(|i: int| visible[i]).map_values(
        |i: int| pixels[i],
    )
}

/// The opaque colors are those of the visible pixels.
proof fn opaque_colors_are_seen(pixels: Seq<Rgb>, visible: Seq<bool>, count: nat)
    requires
        count <= pixels.len(),
    ensures
        crate::quantize::opaque_colors(pixels, visible, count) == Seq::new(
            count,
            |i: int| i,
        ).filter(|i: int| visible[i]).map_values(|i: int| pixels[i]),
    decreases count,
{
    let keep = |i: int| visible[i];
    let color = |i: int| pixels[i];
    let places = Seq::new(count, |i: int| i);
    reveal(Seq::filter);
    if count == 0 {
        assert(places.filter(keep).map_values(color) =~= Seq::<Rgb>::empty());
    } else {
        let last = (count - 1) as nat;
        opaque_colors_are_seen(pixels, visible, last);
        assert(places.drop_last() =~= Seq::new(last, |i: int| i));
        let before = Seq::new(last, |i: int| i).filter(keep);
        if visible[count - 1] {
            assert(places.filter(keep) == before.push(count - 1));
            assert(places.filter(keep).map_values(color) =~= before.map_values(color).push(
                pixels[count - 1],
            ));
        } else {
            assert(places.filter(keep) == before);
        }
    }
}

/// The palette of an image with transparent pixels is trained on the colors of the
/// visible ones. Without error diffusion every visible pixel takes the color of it
/// that is nearest to its own.
pub proof fn visible_pixels_train_the_palette(
    method: QuantizeMethod,
    size: u16,
    width: int,
    pixels: Seq<Rgb>,
    visible: Seq<bool>,
    i: int,
)
    requires
        0 <= i < pixels.len(),
    ensures
        crate::quantize::opaque_colors(pixels, visible, pixels.len()) == seen_colors(
            pixels,
            visible,
        ),
        crate::quantize::masked_palette(method, size, pixels, visible)
            == crate::quantizer::trained_palette(method, size, seen_colors(pixels, visible)),
        crate::quantize::masked_indices(method, size, None, width, pixels, visible).len()
            == pixels.len(),
        crate::quantize::masked_indices(method, size, None, width, pixels, visible)[i]
            == if visible[i] {
            crate::quantizer::nearest(
                crate::quantizer::trained_palette(method, size, seen_colors(pixels, visible)),
                crate::quantizer::oklab_of(pixels[i]),
            )
        } else {
            0
        },
{
    opaque_colors_are_seen(pixels, visible, pixels.len());
}

/// With error diffusion every visible pixel takes the color of the trained palette
/// that is nearest to its own plus the error that reaches it, `seen`.
pub proof fn visible_pixels_diffuse_their_error(
    method: QuantizeMethod,
    size: u16,
    ditherer: FloydSteinberg,
    width: int,
    pixels: Seq<Rgb>,
    visible: Seq<bool>,
) -> (seen: spec_fn(int, int) -> Oklab)
    requires
        0 < width,
    ensures
        ({
            let palette = crate::quantizer::trained_palette(
                method,
                size,
                seen_colors(pixels, visible),
            );
            let indices = crate::quantize::masked_indices(
                method,
                size,
                Some(ditherer),
                width,
                pixels,
                visible,
            );
            forall|y: int, x: int|
                crate::dither::is_on(visible, width, y, x) && (y + 1) * width <= pixels.len() ==> {
                    &&& #[trigger] seen(y, x) == crate::quantizer::oklab_sum(
                        crate::quantizer::oklab_of(pixels[y * width + x]),
                        crate::dither::received(
                            visible,
                            width,
                            |a: int, b: int|
                                crate::dither::error_of(palette, ditherer, seen(a, b)),
                            y,
                            x,
                        ),
                    )
                    &&& indices[y * width + x] == crate::quantizer::nearest(palette, seen(y, x))
                }
        }),
{
    opaque_colors_are_seen(pixels, visible, pixels.len());
    let palette = crate::quantizer::trained_palette(method, size, seen_colors(pixels, visible));
    let colors = crate::quantize::in_oklab(pixels);
    let seen = crate::dither::error_diffusion_spreads_the_error_of_every_visible_pixel(
        colors,
        visible,
        width,
        palette,
        ditherer,
        Seq::new(pixels.len(), |i: int| 0u8),
    );
    let handed = |a: int, b: int| crate::dither::error_of(palette, ditherer, seen(a, b));
    assert forall|y: int, x: int|
        crate::dither::is_on(visible, width, y, x) && (y + 1) * width
            <= pixels.len() implies #[trigger] seen(y, x) == crate::quantizer::oklab_sum(
        crate::quantizer::oklab_of(pixels[y * width + x]),
        crate::dither::received(visible, width, handed, y, x),
    ) by {
        let i = y * width + x;
        assert(0 <= i < pixels.len()) by (nonlinear_arith)
            requires
                0 <= y,
                0 <= x < width,
                i == y * width + x,
                (y + 1) * width <= pixels.len(),
        ;
        assert(colors[i] == crate::quantizer::oklab_of(pixels[i]));
    }
    seen
}

/// A search for a color starts at the top bits of the product of its three bytes,
/// as one number, and 0x9E3779B1, modulo 2^32. There are as many bits as number
/// the slots.
pub proof fn a_search_starts_at_the_hash_of_the_color(r: u8, g: u8, b: u8, bits: nat)
    requires
        bits <= 32,
    ensures
        crate::counted::home_slot(
            (Rgb { r, g, b }),
            vstd::arithmetic::power2::pow2(bits) as int,
        ) == (((r * 65536 + g * 256 + b) * 0x9E37_79B1) % 0x1_0000_0000)
            / vstd::arithmetic::power2::pow2((32 - bits) as nat) as int,
{
    crate::counted::home_slot_is_the_top_bits(Rgb { r, g, b }, bits);
}

/// Whether a search that starts at `home` comes to `slot` over slots that are all
/// taken. The table closes on itself.
pub open spec fn comes_to(slots: Seq<u32>, home: int, slot: int) -> bool {
    &&& 0 <= home < slots.len()
    &&& 0 <= slot < slots.len()
    &&& home <= slot ==> forall|p: int| home <= p < slot ==> #[trigger] slots[p] != 0
    &&& slot < home ==> forall|p: int|
        home <= p < slots.len() || 0 <= p < slot ==> #[trigger] slots[p] != 0
}

/// A new color goes into the first free slot of its search, as one more than its
/// index, and nothing else changes. A table without colors is empty.
pub proof fn a_color_goes_into_the_first_free_slot(
    colors: Seq<Rgb>,
    count: nat,
    len: nat,
    free: int,
)
    requires
        count < colors.len(),
        count < u32::MAX,
        0 < len,
        crate::counted::filled(colors, count, len).len() == len,
        comes_to(
            crate::counted::filled(colors, count, len),
            crate::counted::home_slot(colors[count as int], len as int),
            free,
        ),
        crate::counted::filled(colors, count, len)[free] == 0,
    ensures
        crate::counted::filled(colors, 0, len) == Seq::new(len, |i: int| 0u32),
        crate::counted::filled(colors, count + 1, len) == crate::counted::filled(
            colors,
            count,
            len,
        ).update(free, (count + 1) as u32),
{
    let slots = crate::counted::filled(colors, count, len);
    let color = colors[count as int];
    let home = crate::counted::home_slot(color, len as int);
    let step = if home <= free {
        free - home
    } else {
        free - home + len
    };
    assert(crate::counted::probe(slots, color, step) == 0);
    assert forall|before: int| 0 <= before < step implies #[trigger] crate::counted::probe(
        slots,
        color,
        before,
    ) != 0 by {
        let p = crate::counted::wrap(home, before, len as int);
        assert(slots[p] != 0);
    }
    assert(crate::counted::finds(slots, color, step, 0));
    crate::counted::free_slot_is(slots, color, step);
    assert((count + 1 - 1) as nat == count);
}

/// The table holds the colors as they went in one by one, in at most half of its
/// slots. It starts with 4096 slots, and has more only if half of them were not
/// enough.
pub proof fn a_table_is_as_large_as_its_colors_need(counted: Counted)
    requires
        counted.well_formed(),
    ensures
        counted.slots@ == crate::counted::filled(
            counted.colors@,
            counted.colors@.len(),
            counted.slots@.len(),
        ),
        counted.slots@.len() >= 4096,
        2 * counted.colors@.len() <= counted.slots@.len(),
        counted.slots@.len() > 4096 ==> 2 * counted.colors@.len() > counted.slots@.len() / 2,
        vstd::arithmetic::power2::is_pow2(counted.slots@.len() as int),
{
}

/// A mask has whole words of 64 bits, as few as hold its bits.
pub proof fn a_mask_has_whole_words(len: int)
    requires
        0 <= len,
    ensures
        len <= 64 * crate::mask::word_count(len) < len + 64,
{
}

/// The bits of a mask of the first pixels of an image are those of the opaque
/// ones. The bits of the other pixels and past the image are cleared.
pub proof fn a_mask_has_the_opaque_pixels(rgba: Seq<u8>, count: int, i: int)
    ensures
        rgba.len() / 4 <= crate::image::opacity_bits(rgba, count).len() < rgba.len() / 4 + 64,
        crate::image::opacity_bits(rgba, count).len() % 64 == 0,
        0 <= i < crate::image::opacity_bits(rgba, count).len() ==> crate::image::opacity_bits(
            rgba,
            count,
        )[i] == (i < count && i < rgba.len() / 4 && rgba[4 * i + 3] >= 128),
{
}

/// A mask and its indices stand for the pixels whose bit is set, each with its
/// index, and for transparent ones.
pub proof fn a_set_bit_is_an_opaque_pixel(
    indices: Seq<u8>,
    mask: Seq<bool>,
    count: nat,
    i: int,
)
    requires
        0 <= i < count,
    ensures
        crate::bands::cells_of(indices, mask, count).len() == count,
        crate::bands::cells_of(indices, mask, count)[i] == if mask[i] {
            Some(indices[i])
        } else {
            None
        },
        crate::runs::pixel_at(indices, None, i) == Some(indices[i]),
{
}

/// The indices of the first pixels of an image whose colors are the palette: that
/// of its color for each opaque one, and 0 for the others.
pub proof fn exact_indices_point_at_the_color(rgba: Seq<u8>, count: int, i: int)
    requires
        crate::image::distinct_colors(rgba, rgba.len() / 4).len() <= 256,
        0 <= i < rgba.len() / 4,
    ensures
        crate::palette::exact_indices(rgba, count).len() == rgba.len() / 4,
        i < count && rgba[4 * i + 3] >= 128 ==> crate::palette::exact_indices(rgba, count)[i]
            < crate::image::distinct_colors(rgba, rgba.len() / 4).len()
            && crate::image::distinct_colors(
            rgba,
            rgba.len() / 4,
        )[crate::palette::exact_indices(rgba, count)[i] as int] == crate::meaning::rgb_at(rgba, i),
        i >= count || rgba[4 * i + 3] < 128 ==> crate::palette::exact_indices(rgba, count)[i] == 0,
{
    let all = crate::image::distinct_colors(rgba, rgba.len() / 4);
    crate::image::distinct_colors_are_the_visible_ones(rgba, rgba.len() / 4);
    if rgba[4 * i + 3] >= 128 {
        assert(crate::image::is_visible(rgba, i));
        assert(crate::image::color_at(rgba, i) == crate::meaning::rgb_at(rgba, i));
        assert(all.contains(crate::image::color_at(rgba, i)));
        let place = choose|k: int| 0 <= k < all.len() && all[k] == crate::image::color_at(rgba, i);
        crate::image::place_is_index(all, place);
    }
}

/// The distinct colors of the first pixels of an image are those of the opaque
/// ones, each once, in the order of their first pixel.
pub proof fn distinct_colors_come_in_order(rgba: Seq<u8>, count: nat, k: int)
    requires
        count <= rgba.len() / 4,
        0 <= k < crate::image::distinct_colors(rgba, count).len(),
    ensures
        crate::image::distinct_colors(rgba, count).no_duplicates(),
        crate::meaning::is_brought(rgba, crate::image::distinct_colors(rgba, count), k),
        forall|i: int|
            0 <= i < count && #[trigger] crate::meaning::opaque_at(rgba, i)
                ==> crate::image::distinct_colors(rgba, count).contains(
                crate::meaning::rgb_at(rgba, i),
            ),
{
    let colors = crate::image::distinct_colors(rgba, count);
    crate::image::distinct_colors_are_the_visible_ones(rgba, count);
    assert forall|i: int| 0 <= i < count && #[trigger] crate::meaning::opaque_at(
        rgba,
        i,
    ) implies colors.contains(crate::meaning::rgb_at(rgba, i)) by {
        assert(crate::image::is_visible(rgba, i));
        assert(crate::image::color_at(rgba, i) == crate::meaning::rgb_at(rgba, i));
    }
    let first = crate::meaning::distinct_colors_are_in_order(rgba, count, k);
    assert forall|j: int| 0 <= j < first && #[trigger] crate::meaning::opaque_at(
        rgba,
        j,
    ) implies colors.take(k).contains(crate::meaning::rgb_at(rgba, j)) by {
        assert(crate::image::is_visible(rgba, j));
        assert(crate::image::color_at(rgba, j) == crate::meaning::rgb_at(rgba, j));
    }
    assert(crate::meaning::brings(rgba, colors, k, first));
}

/// Opaque pixels are counted by their color: each pixel has the place of its
/// color, and each color as many as there are pixels of it.
pub proof fn pixels_are_counted_by_their_color(
    rgba: Seq<u8>,
    count: nat,
    colors: Seq<Rgb>,
    counts: Seq<u32>,
    pixels: Seq<u32>,
)
    requires
        count <= rgba.len() / 4,
        forall|i: int| 0 <= i < count ==> #[trigger] crate::meaning::opaque_at(rgba, i),
        crate::palette::tallies(rgba, count, colors, counts, pixels),
    ensures
        colors.no_duplicates(),
        forall|k: int|
            0 <= k < colors.len() ==> #[trigger] crate::meaning::is_brought(rgba, colors, k),
        pixels.len() == count,
        forall|i: int|
            0 <= i < count ==> #[trigger] pixels[i] < colors.len() && colors[pixels[i] as int]
                == crate::meaning::rgb_at(rgba, i),
        counts.len() == colors.len(),
        forall|k: int|
            0 <= k < colors.len() ==> #[trigger] counts[k] == crate::meaning::all_rgb(rgba).take(
                count as int,
            ).to_multiset().count(colors[k]),
{
    let all = rgba.len() / 4;
    crate::image::distinct_colors_are_the_visible_ones(rgba, count);
    crate::image::distinct_colors_are_the_visible_ones(rgba, all);
    crate::image::distinct_colors_grow(rgba, count, all);
    let every = crate::image::distinct_colors(rgba, all);
    assert forall|i: int| 0 <= i < count implies #[trigger] crate::image::is_visible(rgba, i) by {
        assert(crate::meaning::opaque_at(rgba, i));
    }
    assert forall|k: int| 0 <= k < colors.len() implies #[trigger] crate::meaning::is_brought(
        rgba,
        colors,
        k,
    ) by {
        distinct_colors_come_in_order(rgba, count, k);
    }
    assert forall|i: int| 0 <= i < count implies #[trigger] pixels[i] < colors.len()
        && colors[pixels[i] as int] == crate::meaning::rgb_at(rgba, i) by {
        let color = crate::image::color_at(rgba, i);
        assert(crate::image::is_visible(rgba, i));
        assert(every.contains(color));
        let place = choose|k: int| 0 <= k < every.len() && every[k] == color;
        crate::image::place_is_index(every, place);
        assert(pixels[i] == place);
        assert(colors[place] == every[place]);
    }
    assert forall|k: int| 0 <= k < colors.len() implies #[trigger] counts[k]
        == crate::meaning::all_rgb(rgba).take(count as int).to_multiset().count(colors[k]) by {
        crate::meaning::occurrences_are_counts(rgba, count, colors[k]);
    }
}

/// The pixel whose color is one too many is the first that has the colors before
/// it and its own outnumber the budget.
pub proof fn a_budget_runs_over_at_a_new_color(rgba: Seq<u8>, budget: int, stop: int)
    requires
        crate::palette::runs_over(rgba, budget, stop),
    ensures
        0 <= stop < rgba.len() / 4,
        rgba[4 * stop + 3] >= 128,
        crate::image::distinct_colors(rgba, stop as nat).len() == budget,
        !crate::image::distinct_colors(rgba, stop as nat).contains(
            crate::meaning::rgb_at(rgba, stop),
        ),
{
    assert((stop + 1 - 1) as nat == stop as nat);
    assert(crate::image::color_at(rgba, stop) == crate::meaning::rgb_at(rgba, stop));
}

/// The first transparent pixel is transparent, and those before it are opaque.
pub proof fn opaque_pixels_come_before_the_first_hidden_one(rgba: Seq<u8>, stop: int, i: int)
    requires
        crate::palette::first_hidden(rgba, stop),
        0 <= i < stop,
    ensures
        stop < rgba.len() / 4,
        rgba[4 * stop + 3] < 128,
        rgba[4 * i + 3] >= 128,
{
    assert(crate::image::is_visible(rgba, i));
}

} // verus!
