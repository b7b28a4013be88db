//! What the encoder does with an image, said of the bytes of the image and of
//! what the quantizer answers.

use crate::encoder::{EncodeOptions, SixelEncoder};
use crate::quantizer::MethodKind;
use crate::types::{Header, Rgb, SixelError};
use quantette::deps::palette::Oklab;
use quantette::dither::FloydSteinberg;
use vstd::prelude::*;

verus! {

/// Whether the fourth byte of pixel `i` makes it opaque.
pub open spec fn opaque_at(rgba: Seq<u8>, i: int) -> bool {
    rgba[4 * i + 3] >= 128
}

/// The first three bytes of pixel `i`.
pub open spec fn rgb_at(rgba: Seq<u8>, i: int) -> Rgb {
    Rgb { r: rgba[4 * i], g: rgba[4 * i + 1], b: rgba[4 * i + 2] }
}

/// The color of every pixel.
pub open spec fn all_rgb(rgba: Seq<u8>) -> Seq<Rgb> {
    Seq::new(rgba.len() / 4, |i: int| rgb_at(rgba, i))
}

/// The colors of the opaque pixels, in their order.
pub open spec fn opaque_rgb(rgba: Seq<u8>) -> Seq<Rgb> {
    Seq::new(rgba.len() / 4, |i: int| i).filter(|i: int| opaque_at(rgba, i)).map_values(
        |i: int| rgb_at(rgba, i),
    )
}

/// Whether `rgba` holds 4 bytes for each of `width` by `height` pixels.
pub open spec fn has_pixels(rgba: Seq<u8>, width: usize, height: usize) -> bool {
    0 < width && 0 < height && rgba.len() == 4 * (width * height)
}

/// Whether `size` is the number from 2 to 256 that is nearest to `max_colors`.
pub open spec fn is_limit(max_colors: u16, size: u16) -> bool {
    &&& 2 <= size <= 256
    &&& size < max_colors ==> size == 256
    &&& size > max_colors ==> size == 2
}

/// Whether `colors` holds the color of every opaque pixel.
pub open spec fn holds_opaque_colors(rgba: Seq<u8>, colors: Seq<Rgb>) -> bool {
    forall|i: int|
        0 <= i < rgba.len() / 4 && #[trigger] opaque_at(rgba, i) ==> colors.contains(
            rgb_at(rgba, i),
        )
}

/// Whether the encoder leaves the palette of an image to the quantizer: it is not
/// to keep the colors, or no `size` colors hold those of the opaque pixels.
pub open spec fn is_quantized(encoder: SixelEncoder, rgba: Seq<u8>, size: u16) -> bool {
    encoder.exact_palette() ==> forall|colors: Seq<Rgb>| #[trigger]
        holds_opaque_colors(rgba, colors) ==> colors.len() > size
}

/// Whether pixel `i` is the first opaque pixel of the color `k` of `colors`: those
/// before it have colors that come before `k`.
pub open spec fn brings(rgba: Seq<u8>, colors: Seq<Rgb>, k: int, i: int) -> bool {
    &&& 0 <= i < rgba.len() / 4
    &&& opaque_at(rgba, i)
    &&& rgb_at(rgba, i) == colors[k]
    &&& forall|j: int|
        0 <= j < i && #[trigger] opaque_at(rgba, j) ==> colors.take(k).contains(rgb_at(rgba, j))
}

/// Whether the color `k` of `colors` is that of an opaque pixel, and comes before
/// the colors that later pixels bring.
pub open spec fn is_brought(rgba: Seq<u8>, colors: Seq<Rgb>, k: int) -> bool {
    exists|i: int| #[trigger] brings(rgba, colors, k, i)
}

/// An image is refused for its dimensions or for the length of its buffer, and
/// for nothing else: each error comes on the images that it is for, and an image
/// of at least one pixel, at most 1,000,000 columns and at most 2^26 pixels with
/// 4 bytes for each is taken.
pub proof fn an_image_within_the_limits_is_taken(len: nat, width: usize, height: usize)
    ensures
        crate::encoder::encode_error(len, width as int, height as int) is None <==> (1 <= width
            <= 1_000_000 && 1 <= height && width * height <= 67_108_864 && len == 4 * (width
            * height)),
        crate::encoder::encode_error(len, width as int, height as int) == Some(
            SixelError::IntegerOverflow,
        ) <==> width * height * 4 > usize::MAX,
        crate::encoder::encode_error(len, width as int, height as int) == Some(
            SixelError::InvalidDimensions { width, height },
        ) <==> (width * height * 4 <= usize::MAX && (width == 0 || height == 0 || width > 1_000_000
            || width * height > 67_108_864)),
        crate::encoder::encode_error(len, width as int, height as int) matches Some(
            SixelError::InvalidDimensions { width: w, height: h },
        ) ==> w == width && h == height,
        crate::encoder::encode_error(len, width as int, height as int) matches Some(
            SixelError::BufferSizeMismatch { expected, actual },
        ) ==> expected == 4 * (width * height) && len != expected && (len <= usize::MAX ==> actual
            == len),
        !(crate::encoder::encode_error(len, width as int, height as int) matches Some(
            SixelError::Quantization(_),
        )),
        crate::types::dimension_error(width as int, height as int) is None <==> (1 <= width
            <= 1_000_000 && 1 <= height && width * height <= 67_108_864),
{
    assert(width == 0 || height == 0 ==> width * height == 0) by (nonlinear_arith);
}

/// Whether an image is refused rests on the number of its pixels alone once it
/// is within the width: images of as many pixels are taken or refused together.
pub proof fn images_of_as_many_pixels_are_taken_together(
    width: usize,
    height: usize,
    other_width: usize,
    other_height: usize,
)
    requires
        1 <= width <= 1_000_000,
        1 <= other_width <= 1_000_000,
        1 <= height,
        1 <= other_height,
        width * height == other_width * other_height,
    ensures
        crate::types::dimension_error(width as int, height as int) is None
            <==> crate::types::dimension_error(other_width as int, other_height as int) is None,
{
}

/// The number of colors that the encoder may use is the nearest from 2 to 256.
proof fn limit_is(max_colors: u16, size: u16)
    requires
        is_limit(max_colors, size),
    ensures
        crate::encoder::palette_size(max_colors) == size,
{
}

/// No more distinct colors than a sequence that holds them.
proof fn distinct_within(distinct: Seq<Rgb>, colors: Seq<Rgb>)
    requires
        distinct.no_duplicates(),
        forall|k: int| 0 <= k < distinct.len() ==> colors.contains(#[trigger] distinct[k]),
    ensures
        distinct.len() <= colors.len(),
{
    distinct.unique_seq_to_set();
    colors.lemma_cardinality_of_set();
    assert(distinct.to_set().subset_of(colors.to_set())) by {
        assert forall|c: Rgb| distinct.to_set().contains(c) implies colors.to_set().contains(
            c,
        ) by {
            let k = choose|k: int| 0 <= k < distinct.len() && distinct[k] == c;
            assert(colors.contains(distinct[k]));
        }
    }
    vstd::set_lib::lemma_len_subset(distinct.to_set(), colors.to_set());
}

/// The distinct colors hold those of the opaque pixels, and no sequence that does
/// is shorter.
pub(crate) proof fn distinct_colors_are_the_fewest(rgba: Seq<u8>, colors: Seq<Rgb>)
    ensures
        holds_opaque_colors(
            rgba,
            crate::image::distinct_colors(rgba, crate::image::pixel_count(rgba)),
        ),
        holds_opaque_colors(rgba, colors) ==> crate::image::distinct_colors(
            rgba,
            crate::image::pixel_count(rgba),
        ).len() <= colors.len(),
{
    let count = crate::image::pixel_count(rgba);
    let distinct = crate::image::distinct_colors(rgba, count);
    crate::image::distinct_colors_are_the_visible_ones(rgba, count);
    assert forall|i: int| 0 <= i < rgba.len() / 4 && #[trigger] opaque_at(
        rgba,
        i,
    ) implies distinct.contains(rgb_at(rgba, i)) by {
        assert(crate::image::is_visible(rgba, i));
        assert(crate::image::color_at(rgba, i) == rgb_at(rgba, i));
    }
    if holds_opaque_colors(rgba, colors) {
        assert forall|k: int| 0 <= k < distinct.len() implies colors.contains(
            #[trigger] distinct[k],
        ) by {
            assert(distinct.contains(distinct[k]));
            let i = choose|i: int|
                0 <= i < count && #[trigger] crate::image::is_visible(rgba, i)
                    && crate::image::color_at(rgba, i) == distinct[k];
            assert(opaque_at(rgba, i));
            assert(rgb_at(rgba, i) == distinct[k]);
        }
        distinct_within(distinct, colors);
    }
}

/// The distinct colors are in the order of their first pixel.
pub(crate) proof fn distinct_colors_are_in_order(rgba: Seq<u8>, count: nat, k: int) -> (first: int)
    requires
        0 <= k < crate::image::distinct_colors(rgba, count).len(),
    ensures
        0 <= first < count,
        crate::image::is_visible(rgba, first),
        crate::image::color_at(rgba, first) == crate::image::distinct_colors(rgba, count)[k],
        forall|j: int|
            0 <= j < first && #[trigger] crate::image::is_visible(rgba, j)
                ==> crate::image::distinct_colors(rgba, count).take(k).contains(
                crate::image::color_at(rgba, j),
            ),
    decreases count,
{
    let last = (count - 1) as nat;
    let before = crate::image::distinct_colors(rgba, last);
    let all = crate::image::distinct_colors(rgba, count);
    if k < before.len() {
        let first = distinct_colors_are_in_order(rgba, last, k);
        assert(all.take(k) =~= before.take(k));
        first
    } else {
        crate::image::distinct_colors_are_the_visible_ones(rgba, last);
        assert(all.take(k) =~= before);
        assert forall|j: int| 0 <= j < last && #[trigger] crate::image::is_visible(
            rgba,
            j,
        ) implies before.contains(crate::image::color_at(rgba, j)) by {}
        last as int
    }
}

/// With an exact palette, an image whose opaque pixels have no more colors than
/// the limit keeps them. The palette holds these colors and no others, each
/// once, in the order of their first pixel. Every opaque pixel has its own color,
/// and no transparent pixel has one.
pub proof fn an_image_that_fits_keeps_its_colors(
    encoder: SixelEncoder,
    rgba: Seq<u8>,
    width: usize,
    height: usize,
    size: u16,
    colors: Seq<Rgb>,
)
    requires
        has_pixels(rgba, width, height),
        encoder.exact_palette(),
        is_limit(encoder.options().max_colors, size),
        holds_opaque_colors(rgba, colors),
        colors.len() <= size,
    ensures
        ({
            let image = encoder.indexed(rgba, width, height);
            &&& image.cells.len() == width * height
            &&& image.palette.no_duplicates()
            &&& image.palette.len() <= colors.len()
            &&& forall|k: int|
                0 <= k < image.palette.len() ==> #[trigger] is_brought(rgba, image.palette, k)
            &&& forall|i: int|
                0 <= i < width * height && #[trigger] opaque_at(rgba, i) ==> (
                image.cells[i] matches Some(index) && index < image.palette.len()
                    && image.palette[index as int] == rgb_at(rgba, i))
            &&& forall|i: int|
                0 <= i < width * height && !(#[trigger] opaque_at(rgba, i))
                    ==> image.cells[i] is None
        }),
{
    let image = encoder.indexed(rgba, width, height);
    let count = crate::image::pixel_count(rgba);
    limit_is(encoder.options().max_colors, size);
    distinct_colors_are_the_fewest(rgba, colors);
    assert(image == crate::encoder::exact_image(rgba));
    crate::laws::an_exact_palette_keeps_every_color(rgba);
    assert forall|i: int| 0 <= i < width * height implies #[trigger] opaque_at(rgba, i)
        == crate::image::is_visible(rgba, i) && rgb_at(rgba, i) == crate::image::color_at(
        rgba,
        i,
    ) by {}
    assert forall|k: int| 0 <= k < image.palette.len() implies #[trigger] is_brought(
        rgba,
        image.palette,
        k,
    ) by {
        let first = distinct_colors_are_in_order(rgba, count, k);
        assert(opaque_at(rgba, first) && rgb_at(rgba, first) == image.palette[k]);
        assert forall|j: int| 0 <= j < first && #[trigger] opaque_at(
            rgba,
            j,
        ) implies image.palette.take(k).contains(rgb_at(rgba, j)) by {
            assert(crate::image::is_visible(rgba, j));
        }
        assert(brings(rgba, image.palette, k, first));
    }
    assert forall|i: int| 0 <= i < width * height && #[trigger] opaque_at(rgba, i) implies (
    image.cells[i] matches Some(index) && index < image.palette.len()
        && image.palette[index as int] == rgb_at(rgba, i)) by {
        assert(crate::image::is_visible(rgba, i));
    }
    assert forall|i: int| 0 <= i < width * height && !(#[trigger] opaque_at(rgba, i)) implies
        image.cells[i] is None by {
        assert(!crate::image::is_visible(rgba, i));
    }
}

/// Whether `colors` are the colors of an opaque image, each once, in the order of
/// their first pixels, which are `firsts`.
pub open spec fn is_census(rgba: Seq<u8>, colors: Seq<Rgb>, firsts: Seq<int>) -> bool {
    &&& firsts.len() == colors.len()
    &&& forall|k: int|
        0 <= k < colors.len() ==> 0 <= #[trigger] firsts[k] < rgba.len() / 4 && rgb_at(
            rgba,
            firsts[k],
        ) == colors[k]
    &&& forall|k: int, m: int|
        0 <= k < m < colors.len() ==> #[trigger] firsts[k] < #[trigger] firsts[m]
    &&& forall|i: int| 0 <= i < rgba.len() / 4 ==> #[trigger] is_listed(rgba, colors, firsts, i)
    &&& colors.no_duplicates()
}

/// Whether the color of pixel `i` is among `colors` and came with a pixel up to it.
pub open spec fn is_listed(rgba: Seq<u8>, colors: Seq<Rgb>, firsts: Seq<int>, i: int) -> bool {
    exists|k: int|
        0 <= k < colors.len() && #[trigger] firsts[k] <= i && colors[k] == rgb_at(rgba, i)
}

/// The first pixels of the distinct colors of some opaque pixels.
proof fn first_pixels(rgba: Seq<u8>, count: nat) -> (firsts: Seq<int>)
    requires
        crate::image::all_visible(rgba),
        count <= rgba.len() / 4,
    ensures
        ({
            let colors = crate::image::distinct_colors(rgba, count);
            &&& firsts.len() == colors.len()
            &&& forall|k: int|
                0 <= k < colors.len() ==> 0 <= #[trigger] firsts[k] < count && rgb_at(
                    rgba,
                    firsts[k],
                ) == colors[k]
            &&& forall|k: int, m: int|
                0 <= k < m < colors.len() ==> #[trigger] firsts[k] < #[trigger] firsts[m]
            &&& forall|i: int| 0 <= i < count ==> #[trigger] is_listed(rgba, colors, firsts, i)
        }),
    decreases count,
{
    if count == 0 {
        Seq::empty()
    } else {
        let last = count - 1;
        let before = crate::image::distinct_colors(rgba, last as nat);
        let colors = crate::image::distinct_colors(rgba, count);
        let earlier = first_pixels(rgba, last as nat);
        let color = rgb_at(rgba, last);
        assert(crate::image::is_visible(rgba, last));
        assert(crate::image::color_at(rgba, last) == color);
        let firsts = if before.contains(color) {
            earlier
        } else {
            earlier.push(last)
        };
        assert forall|i: int| 0 <= i < count implies #[trigger] is_listed(
            rgba,
            colors,
            firsts,
            i,
        ) by {
            if i < last {
                assert(is_listed(rgba, before, earlier, i));
                let k = choose|k: int|
                    0 <= k < before.len() && #[trigger] earlier[k] <= i && before[k] == rgb_at(
                        rgba,
                        i,
                    );
                assert(firsts[k] <= i && colors[k] == rgb_at(rgba, i));
            } else if before.contains(color) {
                let k = choose|k: int| 0 <= k < before.len() && before[k] == color;
                assert(firsts[k] <= i && colors[k] == rgb_at(rgba, i));
            } else {
                let k = before.len() as int;
                assert(firsts[k] <= i && colors[k] == rgb_at(rgba, i));
            }
        }
        firsts
    }
}

/// Every opaque image has a census.
pub proof fn an_opaque_image_has_a_census(rgba: Seq<u8>) -> (census: (Seq<Rgb>, Seq<int>))
    requires
        forall|i: int| 0 <= i < rgba.len() / 4 ==> #[trigger] opaque_at(rgba, i),
    ensures
        is_census(rgba, census.0, census.1),
{
    let count = crate::image::pixel_count(rgba);
    assert forall|i: int| 0 <= i < count implies #[trigger] crate::image::is_visible(
        rgba,
        i,
    ) by {
        assert(opaque_at(rgba, i));
    }
    let colors = crate::image::distinct_colors(rgba, count);
    let firsts = first_pixels(rgba, count);
    crate::image::distinct_colors_are_the_visible_ones(rgba, count);
    (colors, firsts)
}

/// A census of an opaque image is its distinct colors.
proof fn census_so_far(
    rgba: Seq<u8>,
    colors: Seq<Rgb>,
    firsts: Seq<int>,
    count: nat,
) -> (seen: nat)
    requires
        is_census(rgba, colors, firsts),
        crate::image::all_visible(rgba),
        count <= rgba.len() / 4,
    ensures
        seen <= colors.len(),
        crate::image::distinct_colors(rgba, count) == colors.take(seen as int),
        forall|k: int| 0 <= k < colors.len() ==> (#[trigger] firsts[k] < count <==> k < seen),
    decreases count,
{
    if count == 0 {
        assert(colors.take(0) =~= Seq::<Rgb>::empty());
        0
    } else {
        let last = count - 1;
        let seen = census_so_far(rgba, colors, firsts, last as nat);
        let before = crate::image::distinct_colors(rgba, last as nat);
        let color = rgb_at(rgba, last);
        assert(crate::image::is_visible(rgba, last));
        assert(crate::image::color_at(rgba, last) == color);
        assert(is_listed(rgba, colors, firsts, last));
        let k = choose|k: int|
            0 <= k < colors.len() && #[trigger] firsts[k] <= last && colors[k] == rgb_at(rgba, last);
        if before.contains(color) {
            assert forall|m: int| 0 <= m < colors.len() implies (#[trigger] firsts[m] < count <==> m
                < seen) by {
                if firsts[m] == last {
                    assert(colors[m] == color);
                    let p = choose|p: int| 0 <= p < before.len() && before[p] == color;
                    assert(colors[p] == color);
                    assert(p == m);
                    assert(firsts[p] < last);
                }
            }
            seen
        } else {
            if k < seen {
                assert(before[k] == color);
            }
            assert(firsts[k] == last);
            if k > seen {
                assert(firsts[seen as int] < firsts[k]);
            }
            assert(k == seen);
            assert(colors.take(seen as int + 1) =~= before.push(color));
            assert forall|m: int| 0 <= m < colors.len() implies (#[trigger] firsts[m] < count <==> m
                < seen + 1) by {
                if m > k {
                    assert(firsts[k] < firsts[m]);
                }
            }
            seen + 1
        }
    }
}

/// A census of an opaque image is its distinct colors.
proof fn census_is_distinct_colors(rgba: Seq<u8>, colors: Seq<Rgb>, firsts: Seq<int>)
    requires
        is_census(rgba, colors, firsts),
        crate::image::all_visible(rgba),
    ensures
        crate::image::distinct_colors(rgba, crate::image::pixel_count(rgba)) == colors,
{
    let count = crate::image::pixel_count(rgba);
    let seen = census_so_far(rgba, colors, firsts, count);
    if seen < colors.len() {
        assert(firsts[seen as int] < count);
    }
    assert(colors.take(colors.len() as int) =~= colors);
}

/// How often a color occurs among opaque pixels is how often it is in the list of
/// their colors.
pub(crate) proof fn occurrences_are_counts(rgba: Seq<u8>, count: nat, color: Rgb)
    requires
        forall|i: int| 0 <= i < count ==> #[trigger] crate::image::is_visible(rgba, i),
        count <= rgba.len() / 4,
    ensures
        crate::image::occurrences(rgba, count, color) == all_rgb(rgba).take(
            count as int,
        ).to_multiset().count(color),
    decreases count,
{
    let some = all_rgb(rgba).take(count as int);
    if count == 0 {
        assert(some =~= Seq::<Rgb>::empty());
        some.to_multiset_ensures();
    } else {
        let fewer = all_rgb(rgba).take(count - 1);
        occurrences_are_counts(rgba, (count - 1) as nat, color);
        assert(crate::image::is_visible(rgba, count - 1));
        assert(crate::image::color_at(rgba, count - 1) == rgb_at(rgba, count - 1));
        assert(some =~= fewer.push(rgb_at(rgba, count - 1)));
        fewer.to_multiset_ensures();
        broadcast use vstd::multiset::group_multiset_axioms;
    }
}

/// An opaque image that goes to the quantizer with Wu's method and without
/// dithering is quantized by its colors: Wu gets each color once, in the order of
/// their first pixels, with the number of its pixels and the limit on the colors.
/// The palette is Wu's, and every pixel has the index that Wu gave its color.
pub proof fn an_undithered_image_takes_the_indices_of_its_colors(
    encoder: SixelEncoder,
    rgba: Seq<u8>,
    width: usize,
    height: usize,
    size: u16,
    colors: Seq<Rgb>,
    firsts: Seq<int>,
    counts: Seq<u32>,
    oklab: Seq<Oklab>,
)
    requires
        has_pixels(rgba, width, height),
        width * height <= u32::MAX,
        forall|i: int| 0 <= i < width * height ==> #[trigger] opaque_at(rgba, i),
        is_limit(encoder.options().max_colors, size),
        is_quantized(encoder, rgba, size),
        encoder.options().diffusion is None,
        crate::quantizer::method_kind(encoder.options().quantize_method) == MethodKind::Wu,
        is_census(rgba, colors, firsts),
        counts.len() == colors.len(),
        forall|k: int|
            0 <= k < colors.len() ==> #[trigger] counts[k] == all_rgb(rgba).to_multiset().count(
                colors[k],
            ),
        oklab.len() == colors.len(),
        forall|k: int|
            0 <= k < colors.len() ==> #[trigger] oklab[k] == crate::quantizer::oklab_of(colors[k]),
    ensures
        ({
            let image = encoder.indexed(rgba, width, height);
            let wu = crate::quantizer::wu_quantized(oklab, counts, size);
            &&& image.palette.len() == wu.0.len()
            &&& forall|k: int|
                0 <= k < wu.0.len() ==> #[trigger] image.palette[k] == crate::quantizer::srgb_of(
                    wu.0[k],
                )
            &&& image.cells.len() == width * height
            &&& forall|i: int, k: int|
                0 <= i < width * height && 0 <= k < colors.len() && #[trigger] colors[k]
                    == #[trigger] rgb_at(rgba, i) ==> image.cells[i] == Some(wu.1[k])
        }),
{
    let image = encoder.indexed(rgba, width, height);
    let count = crate::image::pixel_count(rgba);
    limit_is(encoder.options().max_colors, size);
    assert(crate::image::all_visible(rgba)) by {
        assert forall|i: int| 0 <= i < count implies #[trigger] crate::image::is_visible(
            rgba,
            i,
        ) by {
            assert(opaque_at(rgba, i));
        }
    }
    distinct_colors_are_the_fewest(rgba, colors);
    census_is_distinct_colors(rgba, colors, firsts);
    assert(all_rgb(rgba).take(count as int) =~= all_rgb(rgba));
    assert(crate::encoder::color_counts(rgba) =~= counts) by {
        assert forall|k: int| 0 <= k < colors.len() implies crate::encoder::color_counts(rgba)[k]
            == counts[k] by {
            occurrences_are_counts(rgba, count, colors[k]);
        }
    }
    assert(crate::quantize::in_oklab(colors) =~= oklab);
    assert forall|i: int, k: int|
        0 <= i < width * height && 0 <= k < colors.len() && #[trigger] colors[k]
            == #[trigger] rgb_at(rgba, i) implies image.cells[i] == Some(
        crate::quantizer::wu_quantized(oklab, counts, size).1[k],
    ) by {
        assert(crate::image::is_visible(rgba, i));
        crate::image::place_is_index(colors, k);
        crate::counted::distinct_colors_bound(colors);
        assert(crate::image::color_at(rgba, i) == colors[k]);
        assert(crate::palette::color_index(rgba, i) == k);
    }
}

/// The colors of the opaque pixels, one way and the other.
proof fn visible_colors_are_opaque_rgb(rgba: Seq<u8>, count: nat)
    requires
        count <= rgba.len() / 4,
    ensures
        crate::image::visible_colors(rgba, count) == Seq::new(count, |i: int| i).filter(
            |i: int| opaque_at(rgba, i),
        ).map_values(|i: int| rgb_at(rgba, i)),
    decreases count,
{
    let keep = |i: int| opaque_at(rgba, i);
    let color = |i: int| rgb_at(rgba, i);
    let places = Seq::new(count, |i: int| i);
    reveal(Seq::filter);
    if count == 0 {
        assert(places.filter(keep).map_values(color) =~= Seq::<Rgb>::empty());
    } else {
        let last = (count - 1) as nat;
        visible_colors_are_opaque_rgb(rgba, last);
        assert(places.drop_last() =~= Seq::new(last, |i: int| i));
        let before = Seq::new(last, |i: int| i).filter(keep);
        assert(crate::image::is_visible(rgba, count - 1) == opaque_at(rgba, count - 1));
        assert(crate::image::color_at(rgba, count - 1) == rgb_at(rgba, count - 1));
        if opaque_at(rgba, count - 1) {
            assert(places.filter(keep) == before.push(count - 1));
            assert(places.filter(keep).map_values(color) =~= before.map_values(color).push(
                rgb_at(rgba, count - 1),
            ));
        } else {
            assert(places.filter(keep) == before);
        }
    }
}

/// An opaque image of any size that goes to the quantizer by its pixels gives it
/// the method, the limit on the colors, the ditherer, the dimensions and the
/// color of every pixel, and asks it to work on distinct colors if there is no
/// ditherer. The palette and the index of every pixel are those of the answer.
pub proof fn an_opaque_image_is_what_the_quantizer_answers(
    encoder: SixelEncoder,
    rgba: Seq<u8>,
    width: usize,
    height: usize,
    size: u16,
    dedup: Option<bool>,
)
    requires
        has_pixels(rgba, width, height),
        width <= u32::MAX,
        height <= u32::MAX,
        forall|i: int| 0 <= i < width * height ==> #[trigger] opaque_at(rgba, i),
        is_limit(encoder.options().max_colors, size),
        is_quantized(encoder, rgba, size),
        encoder.options().diffusion is Some || crate::quantizer::method_kind(
            encoder.options().quantize_method,
        ) != MethodKind::Wu,
        encoder.options().diffusion is Some ==> dedup is None,
        encoder.options().diffusion is None ==> dedup == Some(true),
    ensures
        ({
            let image = encoder.indexed(rgba, width, height);
            let answer = crate::quantizer::quantized_image(
                encoder.options().quantize_method,
                size,
                encoder.options().diffusion,
                dedup,
                width as u32,
                height as u32,
                all_rgb(rgba),
            );
            &&& image.palette == answer.0
            &&& image.cells.len() == width * height
            &&& forall|i: int|
                0 <= i < width * height ==> #[trigger] image.cells[i] == Some(answer.1[i])
        }),
{
    let count = crate::image::pixel_count(rgba);
    limit_is(encoder.options().max_colors, size);
    assert(crate::image::all_visible(rgba)) by {
        assert forall|i: int| 0 <= i < count implies #[trigger] crate::image::is_visible(
            rgba,
            i,
        ) by {
            assert(opaque_at(rgba, i));
        }
    }
    distinct_colors_are_the_fewest(
        rgba,
        crate::image::distinct_colors(rgba, count),
    );
    assert(crate::image::colors_of(rgba) =~= all_rgb(rgba));
    let image = encoder.indexed(rgba, width, height);
    assert forall|i: int| 0 <= i < width * height implies #[trigger] image.cells[i] is Some by {
        assert(crate::image::is_visible(rgba, i));
    }
}

/// What the encoder does with an image of opaque and transparent pixels that goes
/// to the quantizer.
proof fn mixed_is_masked(
    encoder: SixelEncoder,
    rgba: Seq<u8>,
    width: usize,
    height: usize,
    size: u16,
    opaque: int,
    transparent: int,
)
    requires
        has_pixels(rgba, width, height),
        0 <= opaque < width * height,
        opaque_at(rgba, opaque),
        0 <= transparent < width * height,
        !opaque_at(rgba, transparent),
        is_limit(encoder.options().max_colors, size),
        is_quantized(encoder, rgba, size),
    ensures
        encoder.indexed(rgba, width, height) == crate::encoder::masked_image(
            rgba,
            width as int,
            encoder.options().quantize_method,
            size,
            encoder.options().diffusion,
        ),
        crate::image::visible_colors(rgba, crate::image::pixel_count(rgba)) == opaque_rgb(rgba),
        opaque_rgb(rgba).len() > 0,
{
    let count = crate::image::pixel_count(rgba);
    limit_is(encoder.options().max_colors, size);
    assert(!crate::image::is_visible(rgba, transparent));
    assert(!crate::image::all_visible(rgba));
    distinct_colors_are_the_fewest(rgba, crate::image::distinct_colors(rgba, count));
    visible_colors_are_opaque_rgb(rgba, count);
    let places = Seq::new(count, |i: int| i);
    let keep = |i: int| opaque_at(rgba, i);
    assert(places[opaque] == opaque);
    assert(places.contains(opaque));
    places.lemma_filter_contains(keep, opaque);
    assert(places.filter(keep).contains(places[opaque]));
}

/// The palette of an image of opaque and transparent pixels that goes to the
/// quantizer is trained on the colors of its opaque pixels, with the method of
/// the options and within the limit on the colors.
pub proof fn opaque_pixels_train_the_palette(
    encoder: SixelEncoder,
    rgba: Seq<u8>,
    width: usize,
    height: usize,
    size: u16,
    opaque: int,
    transparent: int,
)
    requires
        has_pixels(rgba, width, height),
        0 <= opaque < width * height,
        opaque_at(rgba, opaque),
        0 <= transparent < width * height,
        !opaque_at(rgba, transparent),
        is_limit(encoder.options().max_colors, size),
        is_quantized(encoder, rgba, size),
    ensures
        ({
            let image = encoder.indexed(rgba, width, height);
            let palette = crate::quantizer::trained_palette(
                encoder.options().quantize_method,
                size,
                opaque_rgb(rgba),
            );
            &&& image.cells.len() == width * height
            &&& image.palette.len() == palette.len()
            &&& forall|k: int|
                0 <= k < palette.len() ==> #[trigger] image.palette[k] == crate::quantizer::srgb_of(
                    palette[k],
                )
        }),
{
    mixed_is_masked(encoder, rgba, width, height, size, opaque, transparent);
}

/// Without dithering, every opaque pixel of an image with transparent ones that
/// goes to the quantizer takes the color of the trained palette that is nearest to
/// its own.
pub proof fn undithered_opaque_pixels_take_the_nearest_color(
    encoder: SixelEncoder,
    rgba: Seq<u8>,
    width: usize,
    height: usize,
    size: u16,
    opaque: int,
    transparent: int,
)
    requires
        has_pixels(rgba, width, height),
        0 <= opaque < width * height,
        opaque_at(rgba, opaque),
        0 <= transparent < width * height,
        !opaque_at(rgba, transparent),
        is_limit(encoder.options().max_colors, size),
        is_quantized(encoder, rgba, size),
        encoder.options().diffusion is None,
    ensures
        encoder.indexed(rgba, width, height).cells[opaque] == Some(
            crate::quantizer::nearest(
                crate::quantizer::trained_palette(
                    encoder.options().quantize_method,
                    size,
                    opaque_rgb(rgba),
                ),
                crate::quantizer::oklab_of(rgb_at(rgba, opaque)),
            ),
        ),
{
    mixed_is_masked(encoder, rgba, width, height, size, opaque, transparent);
    assert(crate::image::is_visible(rgba, opaque));
    assert(crate::image::color_at(rgba, opaque) == rgb_at(rgba, opaque));
}

/// With dithering, every opaque pixel of an image with transparent ones that goes
/// to the quantizer takes the color of the trained palette that is nearest to its
/// own plus the error that reaches it, at the strength of the ditherer of the
/// options. `seen` is the color of each pixel with that error.
pub proof fn dithered_opaque_pixels_take_the_nearest_color_to_their_own_and_the_error(
    encoder: SixelEncoder,
    rgba: Seq<u8>,
    width: usize,
    height: usize,
    size: u16,
    opaque: int,
    transparent: int,
    ditherer: FloydSteinberg,
) -> (seen: spec_fn(int, int) -> Oklab)
    requires
        has_pixels(rgba, width, height),
        0 <= opaque < width * height,
        opaque_at(rgba, opaque),
        0 <= transparent < width * height,
        !opaque_at(rgba, transparent),
        is_limit(encoder.options().max_colors, size),
        is_quantized(encoder, rgba, size),
        encoder.options().diffusion == Some(ditherer),
    ensures
        ({
            let image = encoder.indexed(rgba, width, height);
            let palette = crate::quantizer::trained_palette(
                encoder.options().quantize_method,
                size,
                opaque_rgb(rgba),
            );
            let visible = Seq::new((width * height) as nat, |i: int| opaque_at(rgba, i));
            forall|y: int, x: int|
                0 <= y < height && 0 <= x < width && opaque_at(rgba, y * width + x) ==> {
                    &&& #[trigger] seen(y, x) == crate::quantizer::oklab_sum(
                        crate::quantizer::oklab_of(rgb_at(rgba, y * width + x)),
                        crate::dither::received(
                            visible,
                            width as int,
                            |a: int, b: int|
                                crate::dither::error_of(palette, ditherer, seen(a, b)),
                            y,
                            x,
                        ),
                    )
                    &&& image.cells[y * width + x] == Some(
                        crate::quantizer::nearest(palette, seen(y, x)),
                    )
                }
        }),
{
    mixed_is_masked(encoder, rgba, width, height, size, opaque, transparent);
    let count = crate::image::pixel_count(rgba);
    let image = encoder.indexed(rgba, width, height);
    let palette = crate::quantizer::trained_palette(
        encoder.options().quantize_method,
        size,
        opaque_rgb(rgba),
    );
    let colors = crate::quantize::in_oklab(crate::image::colors_of(rgba));
    let visible = Seq::new((width * height) as nat, |i: int| opaque_at(rgba, i));
    assert(visible =~= Seq::new(count, |i: int| crate::image::is_visible(rgba, i)));
    let zeros = Seq::new(count, |i: int| 0u8);
    let seen = crate::dither::error_diffusion_spreads_the_error_of_every_visible_pixel(
        colors,
        visible,
        width as int,
        palette,
        ditherer,
        zeros,
    );
    let handed = |a: int, b: int| crate::dither::error_of(palette, ditherer, seen(a, b));
    assert forall|y: int, x: int|
        0 <= y < height && 0 <= x < width && opaque_at(rgba, y * width + x) implies {
        &&& #[trigger] seen(y, x) == crate::quantizer::oklab_sum(
            crate::quantizer::oklab_of(rgb_at(rgba, y * width + x)),
            crate::dither::received(visible, width as int, handed, y, x),
        )
        &&& image.cells[y * width + x] == Some(crate::quantizer::nearest(palette, seen(y, x)))
    } by {
        let i = y * width + x;
        assert(0 <= i < width * height && (y + 1) * width <= width * height) by (nonlinear_arith)
            requires
                0 <= y < height,
                0 <= x < width,
                i == y * width + x,
        ;
        assert(crate::image::is_visible(rgba, i));
        assert(visible[i]);
        assert(crate::dither::is_on(visible, width as int, y, x));
        assert(colors[i] == crate::quantizer::oklab_of(rgb_at(rgba, i)));
        assert(seen(y, x) == crate::quantizer::oklab_sum(
            colors[y * width + x],
            crate::dither::received(visible, width as int, handed, y, x),
        ));
    }
    seen
}

/// Whether there is an opaque pixel at column `x` of row `y`.
pub open spec fn opaque_in(rgba: Seq<u8>, width: usize, y: int, x: int) -> bool {
    0 <= y && 0 <= x < width && opaque_at(rgba, y * width + x)
}

/// The visible pixels of a canvas are the opaque pixels of the image.
proof fn on_is_opaque(rgba: Seq<u8>, width: usize, height: usize, y: int, x: int)
    requires
        y < height,
    ensures
        crate::dither::is_on(
            Seq::new((width * height) as nat, |i: int| opaque_at(rgba, i)),
            width as int,
            y,
            x,
        ) == opaque_in(rgba, width, y, x),
{
    if 0 <= y && 0 <= x < width {
        let i = y * width + x;
        assert(0 <= i < width * height) by (nonlinear_arith)
            requires
                0 <= y < height,
                0 <= x < width,
                i == y * width + x,
        ;
    }
}

/// An opaque pixel of a dithered image with transparent ones whose one opaque
/// neighbor among those that hand error to it is the pixel before it in its row,
/// and to which no error comes in turn, takes the color nearest to its own plus 7
/// sixteenths of the error of that neighbor.
pub proof fn seven_sixteenths_of_the_error_go_ahead(
    encoder: SixelEncoder,
    rgba: Seq<u8>,
    width: usize,
    height: usize,
    size: u16,
    transparent: int,
    ditherer: FloydSteinberg,
    y: int,
    x: int,
    before: int,
    further: int,
)
    requires
        has_pixels(rgba, width, height),
        0 <= transparent < width * height,
        !opaque_at(rgba, transparent),
        is_limit(encoder.options().max_colors, size),
        is_quantized(encoder, rgba, size),
        encoder.options().diffusion == Some(ditherer),
        0 <= y < height,
        0 <= x < width,
        0 <= before < width,
        y % 2 == 0 ==> before == x - 1 && further == x - 2,
        y % 2 != 0 ==> before == x + 1 && further == x + 2,
        opaque_in(rgba, width, y, x),
        opaque_in(rgba, width, y, before),
        !opaque_in(rgba, width, y, further),
        !opaque_in(rgba, width, y - 1, further),
        !opaque_in(rgba, width, y - 1, x - 1),
        !opaque_in(rgba, width, y - 1, x),
        !opaque_in(rgba, width, y - 1, x + 1),
    ensures
        ({
            let palette = crate::quantizer::trained_palette(
                encoder.options().quantize_method,
                size,
                opaque_rgb(rgba),
            );
            let neighbor = crate::quantizer::oklab_sum(
                crate::quantizer::oklab_of(rgb_at(rgba, y * width + before)),
                crate::quantizer::oklab_level(0),
            );
            let error = crate::quantizer::oklab_quotient(
                crate::quantizer::oklab_product(
                    crate::quantizer::oklab_difference(
                        neighbor,
                        palette[crate::quantizer::nearest(palette, neighbor) as int],
                    ),
                    crate::quantizer::diffusion_strength(ditherer),
                ),
                crate::quantizer::oklab_level(16),
            );
            encoder.indexed(rgba, width, height).cells[y * width + x] == Some(
                crate::quantizer::nearest(
                    palette,
                    crate::quantizer::oklab_sum(
                        crate::quantizer::oklab_of(rgb_at(rgba, y * width + x)),
                        crate::quantizer::oklab_sum(
                            crate::quantizer::oklab_level(0),
                            crate::quantizer::oklab_product(
                                error,
                                crate::quantizer::oklab_level(7),
                            ),
                        ),
                    ),
                ),
            )
        }),
{
    let i = y * width + x;
    assert(0 <= i < width * height) by (nonlinear_arith)
        requires
            0 <= y < height,
            0 <= x < width,
            i == y * width + x,
    ;
    let seen = dithered_opaque_pixels_take_the_nearest_color_to_their_own_and_the_error(
        encoder,
        rgba,
        width,
        height,
        size,
        i,
        transparent,
        ditherer,
    );
    on_is_opaque(rgba, width, height, y, before);
    on_is_opaque(rgba, width, height, y, further);
    on_is_opaque(rgba, width, height, y - 1, further);
    on_is_opaque(rgba, width, height, y - 1, x - 1);
    on_is_opaque(rgba, width, height, y - 1, x);
    on_is_opaque(rgba, width, height, y - 1, x + 1);
    let neighbor = seen(y, before);
    let own = seen(y, x);
}

/// The bytes that the encoder writes are the SIXEL of the palette and the pixels
/// that it gives the image, under the width and the height of the image and the
/// aspect ratio and the background mode of the encoder.
pub proof fn the_sixel_is_that_of_the_image(
    encoder: SixelEncoder,
    rgba: Seq<u8>,
    width: usize,
    height: usize,
    header: Header,
)
    requires
        header.width == width,
        header.height == height,
        header.aspect_ratio == encoder.aspect_ratio(),
        header.background_mode == encoder.background_mode(),
    ensures
        encoder.header(width, height) == header,
        encoder.encoded(rgba, width, height) == crate::bands::sixel_of(
            encoder.indexed(rgba, width, height).palette,
            encoder.indexed(rgba, width, height).cells,
            header,
        ),
{
}

/// A terminal that reads what the encoder writes comes to the end of it, has the
/// numbers of the encoder and the image, has in each register the percents nearest
/// to its color, and has painted the opaque pixels and no others, each with the
/// register of its index.
pub proof fn a_terminal_shows_what_the_encoder_writes(
    encoder: SixelEncoder,
    rgba: Seq<u8>,
    width: usize,
    height: usize,
)
    requires
        has_pixels(rgba, width, height),
        forall|i: int|
            0 <= i < width * height && #[trigger] opaque_at(rgba, i) ==> encoder.indexed(
                rgba,
                width,
                height,
            ).cells[i]->0 < encoder.indexed(rgba, width, height).palette.len(),
    ensures
        ({
            let image = encoder.indexed(rgba, width, height);
            let shown = crate::terminal::blank_terminal().read(
                encoder.encoded(rgba, width, height),
            );
            &&& shown.phase is Done
            &&& shown.introducer == seq![
                encoder.aspect_ratio().p1() as nat,
                encoder.background_mode().p2() as nat,
                0nat,
            ]
            &&& shown.raster == seq![
                encoder.aspect_ratio().vertical() as nat,
                1nat,
                width as nat,
                height as nat,
            ]
            &&& forall|k: nat|
                shown.registers.dom().contains(k) <==> k < image.palette.len()
            &&& forall|k: nat|
                k < image.palette.len() ==> {
                    let percents = #[trigger] shown.registers[k];
                    let color = image.palette[k as int];
                    &&& -127 <= percents.0 * 255 - color.r * 100 <= 127
                    &&& -127 <= percents.1 * 255 - color.g * 100 <= 127
                    &&& -127 <= percents.2 * 255 - color.b * 100 <= 127
                }
            &&& forall|x: int, y: int|
                #[trigger] shown.pixels.dom().contains((x, y)) <==> y < height && opaque_in(
                    rgba,
                    width,
                    y,
                    x,
                )
            &&& forall|x: int, y: int|
                y < height && opaque_in(rgba, width, y, x) ==> image.cells[y * width + x] == Some(
                    #[trigger] shown.pixels[(x, y)] as u8,
                )
        }),
{
    let image = encoder.indexed(rgba, width, height);
    let header = encoder.header(width, height);
    let shown = crate::terminal::blank_terminal().read(encoder.encoded(rgba, width, height));
    assert forall|i: int| 0 <= i < image.cells.len() implies (#[trigger] image.cells[i] matches Some(
        index,
    ) ==> index < image.palette.len()) by {
        alpha_of_128_and_up_is_painted(encoder, rgba, width, height, i);
        if opaque_at(rgba, i) {
            assert(image.cells[i]->0 < image.palette.len());
        }
    }
    crate::terminal::a_terminal_shows_the_image(image.palette, image.cells, header);
    assert forall|k: nat| shown.registers.dom().contains(k) <==> k < image.palette.len() by {
        register_is(image.palette, image.palette.len(), k);
    }
    assert forall|k: nat| k < image.palette.len() implies {
        let percents = #[trigger] shown.registers[k];
        let color = image.palette[k as int];
        &&& -127 <= percents.0 * 255 - color.r * 100 <= 127
        &&& -127 <= percents.1 * 255 - color.g * 100 <= 127
        &&& -127 <= percents.2 * 255 - color.b * 100 <= 127
    } by {
        register_is(image.palette, image.palette.len(), k);
        let color = image.palette[k as int];
        crate::laws::percent_is_the_nearest(color.r, 0);
        crate::laws::percent_is_the_nearest(color.g, 0);
        crate::laws::percent_is_the_nearest(color.b, 0);
    }
    assert forall|x: int, y: int| 0 <= x < width && 0 <= y < height implies (image.cells[y * width
        + x] is Some <==> #[trigger] opaque_in(rgba, width, y, x)) by {
        let i = y * width + x;
        assert(0 <= i < width * height) by (nonlinear_arith)
            requires
                0 <= y < height,
                0 <= x < width,
                i == y * width + x,
        ;
        alpha_of_128_and_up_is_painted(encoder, rgba, width, height, i);
    }
}

/// Without an exact palette, the string that stands for an image has one character
/// for each byte that an encoder of the same settings writes. It is refused when
/// the image is.
pub proof fn a_string_has_the_bytes_of_the_encoder(
    encoder: SixelEncoder,
    rgba: Seq<u8>,
    width: usize,
    height: usize,
    result: Result<String, SixelError>,
)
    requires
        !encoder.exact_palette(),
        crate::encoder::returns_text(
            result,
            crate::encoder::encode_result(
                rgba,
                width,
                height,
                encoder.options(),
                encoder.aspect_ratio(),
                encoder.background_mode(),
            ),
        ),
    ensures
        result is Ok <==> crate::encoder::encode_error(
            rgba.len(),
            width as int,
            height as int,
        ) is None,
        result is Err ==> Some(result->Err_0) == crate::encoder::encode_error(
            rgba.len(),
            width as int,
            height as int,
        ),
        result is Ok ==> (result->Ok_0)@.len() == encoder.encoded(rgba, width, height).len(),
        result is Ok ==> forall|i: int|
            0 <= i < (result->Ok_0)@.len() ==> #[trigger] (result->Ok_0)@[i] as u32
                == encoder.encoded(rgba, width, height)[i] as u32,
{
}

/// Encoders are set up alike if and only if their options, their exact palette,
/// their aspect ratio and their background mode are the same.
pub proof fn settings_are_what_the_encoder_was_given(a: SixelEncoder, b: SixelEncoder)
    ensures
        a.same_settings(b) <==> (a.options() == b.options() && a.exact_palette()
            == b.exact_palette() && a.aspect_ratio() == b.aspect_ratio() && a.background_mode()
            == b.background_mode()),
{
}

/// The default options ask for 256 colors from Wu's method, with error diffusion
/// at 7 eighths.
pub proof fn default_options_are_wu_with_dithering(options: EncodeOptions)
    requires
        options.is_default(),
    ensures
        options.max_colors == 256,
        crate::quantizer::method_kind(options.quantize_method) == MethodKind::Wu,
        options.diffusion is Some,
        crate::quantizer::diffusion_strength(options.diffusion->0)
            == crate::quantizer::oklab_quotient(
            crate::quantizer::oklab_level(7),
            crate::quantizer::oklab_level(8),
        ),
{
}

/// What the first registers hold.
proof fn register_is(palette: Seq<Rgb>, count: nat, k: nat)
    ensures
        crate::terminal::registers_of(palette, count).dom().contains(k) <==> k < count,
        k < count ==> crate::terminal::registers_of(palette, count)[k] == (
            crate::bands::percent(palette[k as int].r),
            crate::bands::percent(palette[k as int].g),
            crate::bands::percent(palette[k as int].b),
        ),
{
}

/// Whatever the settings, the encoder paints the pixels whose alpha is at least
/// 128, and no others.
pub proof fn alpha_of_128_and_up_is_painted(
    encoder: SixelEncoder,
    rgba: Seq<u8>,
    width: usize,
    height: usize,
    i: int,
)
    requires
        has_pixels(rgba, width, height),
        0 <= i < width * height,
    ensures
        encoder.indexed(rgba, width, height).cells[i] is Some <==> rgba[4 * i + 3] >= 128,
{
}

/// A fully transparent image has no palette and no painted pixel, whatever the
/// settings.
pub proof fn a_transparent_image_has_no_palette(
    encoder: SixelEncoder,
    rgba: Seq<u8>,
    width: usize,
    height: usize,
)
    requires
        has_pixels(rgba, width, height),
        forall|i: int| 0 <= i < width * height ==> !(#[trigger] opaque_at(rgba, i)),
    ensures
        encoder.indexed(rgba, width, height).palette.len() == 0,
        encoder.indexed(rgba, width, height).cells.len() == width * height,
        forall|i: int|
            0 <= i < width * height ==> #[trigger] encoder.indexed(
                rgba,
                width,
                height,
            ).cells[i] is None,
{
    assert(0 < width * height) by (nonlinear_arith)
        requires
            0 < width,
            0 < height,
    ;
    assert forall|i: int| 0 <= i < crate::image::pixel_count(rgba) implies !(
    #[trigger] crate::image::is_visible(rgba, i)) by {
        assert(!opaque_at(rgba, i));
    }
    crate::laws::a_transparent_image_is_the_same_with_an_exact_palette(
        encoder.options(),
        encoder.exact_palette(),
        rgba,
        width as int,
        height as int,
    );
}

} // verus!
