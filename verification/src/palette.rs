//! The colors of an image as its palette, and how often each occurs.

use crate::image::OPAQUE_ALPHA;
use crate::scratch::Scratch;
use crate::types::Rgb;
use vstd::prelude::*;

verus! {

/// The index of the color of pixel `i` among the distinct colors of the image.
pub open spec fn color_index(rgba: Seq<u8>, i: int) -> int {
    crate::image::distinct_colors(rgba, crate::image::pixel_count(rgba)).index_of(
        crate::image::color_at(rgba, i),
    )
}

/// The place of the color of an opaque pixel among the distinct colors.
proof fn color_index_is(rgba: Seq<u8>, count: nat, i: int, place: int)
    requires
        0 <= i < count <= crate::image::pixel_count(rgba),
        0 <= place < crate::image::distinct_colors(rgba, count).len(),
        crate::image::distinct_colors(rgba, count)[place] == crate::image::color_at(rgba, i),
    ensures
        color_index(rgba, i) == place,
{
    let all = crate::image::pixel_count(rgba);
    crate::image::distinct_colors_grow(rgba, count, all);
    crate::image::distinct_colors_are_the_visible_ones(rgba, all);
    crate::image::place_is_index(crate::image::distinct_colors(rgba, all), place);
}

/// The index of the color of every opaque pixel among the first `count`, and 0
/// for the other pixels.
pub open spec fn exact_indices(rgba: Seq<u8>, count: int) -> Seq<u8> {
    Seq::new(
        crate::image::pixel_count(rgba),
        |i: int|
            if i < count && crate::image::is_visible(rgba, i) {
                color_index(rgba, i) as u8
            } else {
                0
            },
    )
}

/// Whether the color of pixel `stop` is the first that `budget` colors leave no
/// room for.
pub open spec fn runs_over(rgba: Seq<u8>, budget: int, stop: int) -> bool {
    &&& 0 <= stop < crate::image::pixel_count(rgba)
    &&& crate::image::distinct_colors(rgba, stop as nat).len() <= budget
    &&& crate::image::distinct_colors(rgba, (stop + 1) as nat).len() > budget
}

/// Returns `true` if the colors of the opaque pixels fit in `budget`, `false`
/// otherwise. On `true`, `scratch.palette` holds those colors,
/// `scratch.indices` the index of the color of every opaque pixel and
/// `scratch.opacity_mask` the opaque pixels. On `false`, the three buffers hold
/// a part of the image.
pub fn index_exact_colors(rgba: &[u8], budget: usize, scratch: &mut Scratch) -> (fits: bool)
    requires
        budget <= 256 || crate::image::distinct_colors(
            rgba@,
            crate::image::pixel_count(rgba@),
        ).len() <= 256,
    ensures
        fits == (crate::image::distinct_colors(rgba@, crate::image::pixel_count(rgba@)).len()
            <= budget),
        fits ==> final(scratch).palette@ == crate::image::distinct_colors(
            rgba@,
            crate::image::pixel_count(rgba@),
        ),
        fits ==> final(scratch).indices@ == exact_indices(
            rgba@,
            crate::image::pixel_count(rgba@) as int,
        ),
        fits ==> forall|i: int|
            0 <= i < crate::image::pixel_count(rgba@) && #[trigger] crate::image::is_visible(
                rgba@,
                i,
            ) ==> final(scratch).indices@[i] == color_index(rgba@, i) && color_index(rgba@, i)
                < final(scratch).palette@.len(),
        fits ==> forall|i: int|
            0 <= i < crate::image::pixel_count(rgba@) && !(#[trigger] crate::image::is_visible(
                rgba@,
                i,
            )) ==> final(scratch).indices@[i] == 0,
        fits ==> final(scratch).opacity_mask@ == crate::image::opacity_bits(
            rgba@,
            crate::image::pixel_count(rgba@) as int,
        ),
        fits ==> final(scratch).counted.colors@ == final(scratch).palette@,
        !fits ==> exists|stop: int|
            #![trigger runs_over(rgba@, budget as int, stop)]
            runs_over(rgba@, budget as int, stop) && final(scratch).palette@ == Seq::<Rgb>::empty()
                && final(scratch).indices@ == exact_indices(rgba@, stop)
                && final(scratch).opacity_mask@ == crate::image::opacity_bits(rgba@, stop + 1)
                && final(scratch).counted.colors@ == crate::image::distinct_colors(
                rgba@,
                (stop + 1) as nat,
            ),
        final(scratch).counted.well_formed(),
        final(scratch).counted.counts@ == Seq::new(
            final(scratch).counted.colors@.len(),
            |k: int| 0u32,
        ),
        final(scratch).counted.pixels@ == Seq::<u32>::empty(),
        final(scratch).rgb_pixels == old(scratch).rgb_pixels,
        final(scratch).bands == old(scratch).bands,
        final(scratch).dither == old(scratch).dither,
{
    let count: usize = rgba.len() / 4;
    let ghost all = crate::image::distinct_colors(rgba@, count as nat);
    scratch.opacity_mask.reset(count);
    scratch.palette.clear();
    scratch.indices.clear();
    scratch.indices.resize(count, 0);
    scratch.counted.clear();
    // A run of pixels of one color skips the table.
    let mut last: Option<(Rgb, u8)> = None;
    let mut i: usize = 0;
    while i < count
        invariant
            i <= count,
            count == rgba@.len() / 4,
            rgba@.len() <= usize::MAX,
            all == crate::image::distinct_colors(rgba@, count as nat),
            budget <= 256 || all.len() <= 256,
            scratch.opacity_mask@.len() == 64 * crate::mask::word_count(count as int),
            scratch.palette@.len() == 0,
            scratch.indices@.len() == count,
            scratch.rgb_pixels == old(scratch).rgb_pixels,
            scratch.bands == old(scratch).bands,
            scratch.dither == old(scratch).dither,
            scratch.counted.pixels@.len() == 0,
            forall|k: int|
                0 <= k < scratch.counted.counts@.len() ==> #[trigger] scratch.counted.counts@[k]
                    == 0,
            scratch.counted.well_formed(),
            scratch.counted.colors@ == crate::image::distinct_colors(rgba@, i as nat),
            scratch.counted.colors@.len() <= budget,
            match last {
                Some((color, index)) => index < scratch.counted.colors@.len()
                    && scratch.counted.colors@[index as int] == color,
                None => true,
            },
            forall|j: int|
                0 <= j < scratch.opacity_mask@.len() ==> #[trigger] scratch.opacity_mask@[j] == (j
                    < i && crate::image::is_visible(rgba@, j)),
            forall|j: int|
                0 <= j < i && #[trigger] crate::image::is_visible(rgba@, j)
                    ==> scratch.indices@[j] == color_index(rgba@, j)
                    && color_index(rgba@, j) < scratch.counted.colors@.len(),
            forall|j: int|
                0 <= j < count && (j >= i || !crate::image::is_visible(rgba@, j))
                    ==> #[trigger] scratch.indices@[j] == 0,
        decreases count - i,
    {
        let ghost before = crate::image::distinct_colors(rgba@, i as nat);
        let ghost after = crate::image::distinct_colors(rgba@, (i + 1) as nat);
        if rgba[4 * i + 3] < OPAQUE_ALPHA {
            i += 1;
            continue ;
        }
        scratch.opacity_mask.set(i);
        let color = Rgb { r: rgba[4 * i], g: rgba[4 * i + 1], b: rgba[4 * i + 2] };
        assert(color == crate::image::color_at(rgba@, i as int));
        let known: Option<u8> = match last {
            Some((last_color, index)) => if last_color == color {
                Some(index)
            } else {
                None
            },
            None => None,
        };
        let index: u8 = match known {
            Some(index) => {
                assert(before[index as int] == color);
                assert(before.contains(color));
                index
            },
            None => {
                let index: u32 = scratch.counted.find_or_insert(color);
                proof {
                    assert(scratch.counted.colors@ == after);
                    crate::image::distinct_colors_grow(rgba@, (i + 1) as nat, count as nat);
                }
                if scratch.counted.colors.len() > budget {
                    proof {
                        assert(runs_over(rgba@, budget as int, i as int));
                        assert(scratch.indices@ =~= exact_indices(rgba@, i as int));
                        assert(scratch.opacity_mask@ =~= crate::image::opacity_bits(
                            rgba@,
                            i + 1,
                        ));
                    }
                    return false;
                }
                index as u8
            },
        };
        last = Some((color, index));
        scratch.indices[i] = index;
        proof {
            assert(scratch.counted.colors@ == after);
            color_index_is(rgba@, (i + 1) as nat, i as int, index as int);
        }
        i += 1;
    }
    assert(scratch.opacity_mask@ =~= crate::image::opacity_bits(rgba@, count as int));
    let mut k: usize = 0;
    while k < scratch.counted.colors.len()
        invariant
            k <= all.len(),
            scratch.counted.colors@ == all,
            scratch.palette@ == all.take(k as int),
            scratch.indices@.len() == count,
            forall|j: int|
                0 <= j < count && #[trigger] crate::image::is_visible(rgba@, j)
                    ==> scratch.indices@[j] == color_index(rgba@, j) && color_index(rgba@, j)
                    < all.len(),
            forall|j: int|
                0 <= j < count && !(#[trigger] crate::image::is_visible(rgba@, j))
                    ==> scratch.indices@[j] == 0,
            scratch.opacity_mask@ == crate::image::opacity_bits(rgba@, count as int),
            scratch.rgb_pixels == old(scratch).rgb_pixels,
            scratch.bands == old(scratch).bands,
            scratch.dither == old(scratch).dither,
            scratch.counted.well_formed(),
            scratch.counted.pixels@.len() == 0,
            forall|k: int|
                0 <= k < scratch.counted.counts@.len() ==> #[trigger] scratch.counted.counts@[k]
                    == 0,
        decreases all.len() - k,
    {
        let color: Rgb = scratch.counted.colors[k];
        scratch.palette.push(color);
        k += 1;
        assert(scratch.palette@ =~= all.take(k as int));
    }
    assert(all.take(all.len() as int) =~= all);
    assert(scratch.indices@ =~= exact_indices(rgba@, count as int));
    true
}

/// One more of one color is one more in all.
proof fn total_after_one_more(counts: Seq<u32>, k: int)
    requires
        0 <= k < counts.len(),
        counts[k] < u32::MAX,
    ensures
        crate::quantizer::total(counts.update(k, (counts[k] + 1) as u32))
            == crate::quantizer::total(counts) + 1,
    decreases counts.len(),
{
    let more = counts.update(k, (counts[k] + 1) as u32);
    if k == counts.len() - 1 {
        assert(more.drop_last() =~= counts.drop_last());
    } else {
        assert(more.drop_last() =~= counts.drop_last().update(k, (counts[k] + 1) as u32));
        total_after_one_more(counts.drop_last(), k);
    }
}

/// Each count is at most the sum of them.
proof fn count_within_total(counts: Seq<u32>, k: int)
    requires
        0 <= k < counts.len(),
    ensures
        counts[k] <= crate::quantizer::total(counts),
    decreases counts.len(),
{
    if k < counts.len() - 1 {
        count_within_total(counts.drop_last(), k);
        assert(counts.drop_last()[k] == counts[k]);
    }
}

/// Whether `colors`, `counts` and `pixels` are the distinct colors of the first
/// `count` pixels, how often each occurs, and the place of the color of each
/// pixel.
pub open spec fn tallies(
    rgba: Seq<u8>,
    count: nat,
    colors: Seq<Rgb>,
    counts: Seq<u32>,
    pixels: Seq<u32>,
) -> bool {
    &&& colors == crate::image::distinct_colors(rgba, count)
    &&& counts.len() == colors.len()
    &&& crate::quantizer::total(counts) == count
    &&& forall|k: int|
        0 <= k < colors.len() ==> #[trigger] counts[k] == crate::image::occurrences(
            rgba,
            count,
            colors[k],
        )
    &&& pixels.len() == count
    &&& forall|i: int|
        0 <= i < count ==> #[trigger] pixels[i] == color_index(rgba, i) && pixels[i] < colors.len()
}

/// Whether pixel `stop` is the first that is transparent.
pub open spec fn first_hidden(rgba: Seq<u8>, stop: int) -> bool {
    &&& 0 <= stop < crate::image::pixel_count(rgba)
    &&& !crate::image::is_visible(rgba, stop)
    &&& forall|i: int| 0 <= i < stop ==> #[trigger] crate::image::is_visible(rgba, i)
}

/// One more pixel goes into the tallies by the count of its color, which is zero
/// if the color is new.
proof fn one_more_pixel(
    rgba: Seq<u8>,
    count: nat,
    colors: Seq<Rgb>,
    counts: Seq<u32>,
    pixels: Seq<u32>,
    known: Seq<u32>,
    index: u32,
)
    requires
        count < crate::image::pixel_count(rgba) <= u32::MAX,
        tallies(rgba, count, colors, counts, pixels),
        crate::image::is_visible(rgba, count as int),
        known == if colors.contains(crate::image::color_at(rgba, count as int)) {
            counts
        } else {
            counts.push(0)
        },
        index < crate::image::distinct_colors(rgba, count + 1).len(),
        crate::image::distinct_colors(rgba, count + 1)[index as int] == crate::image::color_at(
            rgba,
            count as int,
        ),
    ensures
        index < known.len(),
        known[index as int] < u32::MAX,
        tallies(
            rgba,
            count + 1,
            crate::image::distinct_colors(rgba, count + 1),
            known.update(index as int, (known[index as int] + 1) as u32),
            pixels.push(index),
        ),
{
    let color = crate::image::color_at(rgba, count as int);
    let after = crate::image::distinct_colors(rgba, count + 1);
    let more = known.update(index as int, (known[index as int] + 1) as u32);
    color_index_is(rgba, count + 1, count as int, index as int);
    crate::image::distinct_colors_are_the_visible_ones(rgba, count + 1);
    if !colors.contains(color) {
        assert(known.drop_last() =~= counts);
        absent_color_does_not_occur(rgba, count, color);
    }
    assert(crate::quantizer::total(known) == count);
    count_within_total(known, index as int);
    total_after_one_more(known, index as int);
    assert forall|k: int| 0 <= k < after.len() implies #[trigger] more[k]
        == crate::image::occurrences(rgba, count + 1, after[k]) by {
        assert(known[k] == crate::image::occurrences(rgba, count, after[k])) by {
            if k < colors.len() {
                assert(counts[k] == crate::image::occurrences(rgba, count, colors[k]));
            }
        }
        assert((after[k] == color) == (k == index));
    }
    let all = pixels.push(index);
    assert forall|i: int| 0 <= i < count + 1 implies #[trigger] all[i] == color_index(rgba, i)
        && all[i] < after.len() by {
        if i < count {
            assert(all[i] == pixels[i]);
        }
    }
}

/// Returns `true` if every pixel is opaque, `false` otherwise. On `true`,
/// `scratch.counted` holds the distinct colors of the image, the number of
/// pixels of each one and the color of every pixel, and `scratch.opacity_mask`
/// has every bit set.
///
/// A hash table finds the distinct colors in one pass over `rgba`, and a run of
/// pixels of one color skips the table. A transparent pixel stops the pass,
/// so an image with one near the end costs a pass for nothing.
pub fn count_opaque_colors(rgba: &[u8], scratch: &mut Scratch) -> (opaque: bool)
    requires
        crate::image::pixel_count(rgba@) <= u32::MAX,
    ensures
        opaque == crate::image::all_visible(rgba@),
        opaque ==> tallies(
            rgba@,
            crate::image::pixel_count(rgba@),
            final(scratch).counted.colors@,
            final(scratch).counted.counts@,
            final(scratch).counted.pixels@,
        ),
        opaque ==> final(scratch).opacity_mask@ == crate::image::opacity_bits(
            rgba@,
            crate::image::pixel_count(rgba@) as int,
        ),
        !opaque ==> exists|stop: int|
            #![trigger first_hidden(rgba@, stop)]
            first_hidden(rgba@, stop) && tallies(
                rgba@,
                stop as nat,
                final(scratch).counted.colors@,
                final(scratch).counted.counts@,
                final(scratch).counted.pixels@,
            ) && final(scratch).opacity_mask@ == crate::image::opacity_bits(rgba@, stop),
        final(scratch).counted.well_formed(),
        final(scratch).palette == old(scratch).palette,
        final(scratch).indices == old(scratch).indices,
        final(scratch).rgb_pixels == old(scratch).rgb_pixels,
        final(scratch).bands == old(scratch).bands,
        final(scratch).dither == old(scratch).dither,
{
    let count: usize = rgba.len() / 4;
    scratch.opacity_mask.reset(count);
    scratch.counted.clear();
    let mut last: Option<(Rgb, u32)> = None;
    let mut i: usize = 0;
    while i < count
        invariant
            i <= count,
            count == rgba@.len() / 4,
            count <= u32::MAX,
            rgba@.len() <= usize::MAX,
            scratch.opacity_mask@.len() == 64 * crate::mask::word_count(count as int),
            scratch.palette == old(scratch).palette,
            scratch.indices == old(scratch).indices,
            scratch.rgb_pixels == old(scratch).rgb_pixels,
            scratch.bands == old(scratch).bands,
            scratch.dither == old(scratch).dither,
            scratch.counted.well_formed(),
            tallies(
                rgba@,
                i as nat,
                scratch.counted.colors@,
                scratch.counted.counts@,
                scratch.counted.pixels@,
            ),
            match last {
                Some((color, index)) => index < scratch.counted.colors@.len()
                    && scratch.counted.colors@[index as int] == color,
                None => true,
            },
            forall|j: int| 0 <= j < i ==> crate::image::is_visible(rgba@, j),
            forall|j: int|
                0 <= j < scratch.opacity_mask@.len() ==> #[trigger] scratch.opacity_mask@[j] == (j
                    < i),
        decreases count - i,
    {
        let ghost before = scratch.counted;
        if rgba[4 * i + 3] < OPAQUE_ALPHA {
            assert(!crate::image::is_visible(rgba@, i as int));
            assert(first_hidden(rgba@, i as int));
            assert(scratch.opacity_mask@ =~= crate::image::opacity_bits(rgba@, i as int));
            return false;
        }
        assert(crate::image::is_visible(rgba@, i as int));
        scratch.opacity_mask.set(i);
        let color = Rgb { r: rgba[4 * i], g: rgba[4 * i + 1], b: rgba[4 * i + 2] };
        assert(color == crate::image::color_at(rgba@, i as int));
        let known: Option<u32> = match last {
            Some((last_color, index)) => if last_color == color {
                Some(index)
            } else {
                None
            },
            None => None,
        };
        let index: u32 = match known {
            Some(index) => {
                assert(before.colors@[index as int] == color);
                assert(before.colors@.contains(color));
                index
            },
            None => scratch.counted.find_or_insert(color),
        };
        last = Some((color, index));
        proof {
            one_more_pixel(
                rgba@,
                i as nat,
                before.colors@,
                before.counts@,
                before.pixels@,
                scratch.counted.counts@,
                index,
            );
        }
        scratch.counted.count_pixel(index);
        i += 1;
    }
    assert(scratch.opacity_mask@ =~= crate::image::opacity_bits(rgba@, count as int));
    true
}

/// A color that is not among the distinct colors has no pixel.
proof fn absent_color_does_not_occur(rgba: Seq<u8>, count: nat, color: Rgb)
    requires
        !crate::image::distinct_colors(rgba, count).contains(color),
    ensures
        crate::image::occurrences(rgba, count, color) == 0,
    decreases count,
{
    if count > 0 {
        let before = crate::image::distinct_colors(rgba, (count - 1) as nat);
        let all = crate::image::distinct_colors(rgba, count);
        if before.contains(color) {
            let k = choose|k: int| 0 <= k < before.len() && before[k] == color;
            assert(all[k] == color);
        }
        absent_color_does_not_occur(rgba, (count - 1) as nat, color);
        if crate::image::is_visible(rgba, count - 1) && crate::image::color_at(rgba, count - 1)
            == color {
            assert(all[before.len() as int] == color);
        }
    }
}

} // verus!
