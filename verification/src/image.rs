//! What the bytes of an RGBA image say.

use crate::types::Rgb;
use vstd::prelude::*;

verus! {

/// A pixel with an alpha below this one is transparent.
pub const OPAQUE_ALPHA: u8 = 128;

/// The number of pixels of an image. A pixel has 4 bytes: R, G, B and A.
pub open spec fn pixel_count(rgba: Seq<u8>) -> nat {
    rgba.len() / 4
}

/// Whether pixel `i` is opaque.
pub open spec fn is_visible(rgba: Seq<u8>, i: int) -> bool {
    rgba[4 * i + 3] >= OPAQUE_ALPHA
}

/// The color of pixel `i`.
pub open spec fn color_at(rgba: Seq<u8>, i: int) -> Rgb {
    Rgb { r: rgba[4 * i], g: rgba[4 * i + 1], b: rgba[4 * i + 2] }
}

/// Whether every pixel is opaque.
pub open spec fn all_visible(rgba: Seq<u8>) -> bool {
    forall|i: int| 0 <= i < pixel_count(rgba) ==> #[trigger] is_visible(rgba, i)
}

/// Whether no pixel is opaque.
pub open spec fn none_visible(rgba: Seq<u8>) -> bool {
    forall|i: int| 0 <= i < pixel_count(rgba) ==> !(#[trigger] is_visible(rgba, i))
}

/// The color of every pixel.
pub open spec fn colors_of(rgba: Seq<u8>) -> Seq<Rgb> {
    Seq::new(pixel_count(rgba), |i: int| color_at(rgba, i))
}

/// The colors of the opaque pixels among the first `count`, in their order.
pub open spec fn visible_colors(rgba: Seq<u8>, count: nat) -> Seq<Rgb>
    decreases count,
{
    if count == 0 {
        Seq::empty()
    } else {
        let before = visible_colors(rgba, (count - 1) as nat);
        if is_visible(rgba, count - 1) {
            before.push(color_at(rgba, count - 1))
        } else {
            before
        }
    }
}

/// The distinct colors of the opaque pixels among the first `count`, in the
/// order of their first pixel.
pub open spec fn distinct_colors(rgba: Seq<u8>, count: nat) -> Seq<Rgb>
    decreases count,
{
    if count == 0 {
        Seq::empty()
    } else {
        let before = distinct_colors(rgba, (count - 1) as nat);
        if is_visible(rgba, count - 1) && !before.contains(color_at(rgba, count - 1)) {
            before.push(color_at(rgba, count - 1))
        } else {
            before
        }
    }
}

/// The number of opaque pixels of the color `color` among the first `count`.
pub open spec fn occurrences(rgba: Seq<u8>, count: nat, color: Rgb) -> nat
    decreases count,
{
    if count == 0 {
        0
    } else {
        occurrences(rgba, (count - 1) as nat, color) + if is_visible(rgba, count - 1) && color_at(
            rgba,
            count - 1,
        ) == color {
            1nat
        } else {
            0
        }
    }
}

/// The pixels of an image with the palette index of each opaque one.
pub open spec fn visible_cells(rgba: Seq<u8>, indices: Seq<u8>) -> Seq<Option<u8>> {
    Seq::new(
        pixel_count(rgba),
        |i: int|
            if is_visible(rgba, i) {
                Some(indices[i])
            } else {
                None
            },
    )
}

/// The bits of a mask of the image that has the opaque pixels among the first
/// `count` set. The bits after the last pixel are cleared.
pub open spec fn opacity_bits(rgba: Seq<u8>, count: int) -> Seq<bool> {
    Seq::new(
        (64 * crate::mask::word_count(pixel_count(rgba) as int)) as nat,
        |i: int| i < count && i < pixel_count(rgba) && is_visible(rgba, i),
    )
}

/// Whether the mask has the bits of the opaque pixels set, and of no others of
/// the image.
pub open spec fn shows(mask: Seq<bool>, rgba: Seq<u8>) -> bool {
    &&& pixel_count(rgba) <= mask.len()
    &&& forall|i: int| 0 <= i < pixel_count(rgba) ==> #[trigger] mask[i] == is_visible(rgba, i)
}

/// The pixels that a mask of an image and its indices stand for.
pub proof fn shown_cells(mask: Seq<bool>, rgba: Seq<u8>, indices: Seq<u8>)
    requires
        shows(mask, rgba),
    ensures
        crate::bands::cells_of(indices, mask, pixel_count(rgba)) == visible_cells(rgba, indices),
{
    assert(crate::bands::cells_of(indices, mask, pixel_count(rgba)) =~= visible_cells(
        rgba,
        indices,
    )) by {
        assert forall|i: int| 0 <= i < pixel_count(rgba) implies crate::bands::cells_of(
            indices,
            mask,
            pixel_count(rgba),
        )[i] == visible_cells(rgba, indices)[i] by {
            assert(mask[i] == is_visible(rgba, i));
        }
    }
}

/// The distinct colors hold the color of every opaque pixel, once, and nothing
/// else.
pub proof fn distinct_colors_are_the_visible_ones(rgba: Seq<u8>, count: nat)
    ensures
        distinct_colors(rgba, count).no_duplicates(),
        forall|color: Rgb|
            distinct_colors(rgba, count).contains(color) <==> exists|i: int|
                0 <= i < count && #[trigger] is_visible(rgba, i) && color_at(rgba, i) == color,
        distinct_colors(rgba, count).len() <= count,
    decreases count,
{
    if count > 0 {
        let last = count - 1;
        let before = distinct_colors(rgba, last as nat);
        let all = distinct_colors(rgba, count);
        distinct_colors_are_the_visible_ones(rgba, last as nat);
        assert(all.no_duplicates()) by {
            assert forall|i: int, j: int|
                0 <= i < all.len() && 0 <= j < all.len() && i != j implies all[i] != all[j] by {
                if i == before.len() {
                    assert(before.contains(all[j]));
                } else if j == before.len() {
                    assert(before.contains(all[i]));
                }
            }
        }
        assert forall|color: Rgb| all.contains(color) implies exists|i: int|
            0 <= i < count && #[trigger] is_visible(rgba, i) && color_at(rgba, i) == color by {
            let k = choose|k: int| 0 <= k < all.len() && all[k] == color;
            if k == before.len() {
                assert(is_visible(rgba, last));
            } else {
                assert(before[k] == color);
                assert(before.contains(color));
                let i = choose|i: int|
                    0 <= i < last && #[trigger] is_visible(rgba, i) && color_at(rgba, i) == color;
                assert(is_visible(rgba, i));
            }
        }
        assert forall|color: Rgb|
            exists|i: int|
                0 <= i < count && #[trigger] is_visible(rgba, i) && color_at(rgba, i)
                    == color implies all.contains(color) by {
            let i = choose|i: int|
                0 <= i < count && #[trigger] is_visible(rgba, i) && color_at(rgba, i) == color;
            if i < last {
                assert(before.contains(color));
                let k = choose|k: int| 0 <= k < before.len() && before[k] == color;
                assert(all[k] == color);
            } else if before.contains(color) {
                let k = choose|k: int| 0 <= k < before.len() && before[k] == color;
                assert(all[k] == color);
            } else {
                assert(all[before.len() as int] == color);
            }
        }
    }
}

/// The distinct colors of more pixels go on from those of fewer.
pub proof fn distinct_colors_grow(rgba: Seq<u8>, fewer: nat, more: nat)
    requires
        fewer <= more,
    ensures
        distinct_colors(rgba, fewer).len() <= distinct_colors(rgba, more).len(),
        forall|k: int|
            0 <= k < distinct_colors(rgba, fewer).len() ==> #[trigger] distinct_colors(
                rgba,
                fewer,
            )[k] == distinct_colors(rgba, more)[k],
    decreases more,
{
    if fewer < more {
        distinct_colors_grow(rgba, fewer, (more - 1) as nat);
    }
}

/// In a sequence without duplicates, a place of a value is the place of it.
pub proof fn place_is_index(colors: Seq<Rgb>, place: int)
    requires
        colors.no_duplicates(),
        0 <= place < colors.len(),
    ensures
        colors.index_of(colors[place]) == place,
{
    let found = colors.index_of(colors[place]);
    assert(0 <= found < colors.len() && colors[found] == colors[place]);
}

} // verus!
