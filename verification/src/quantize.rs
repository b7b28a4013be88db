//! The quantization of an image of which [`Scratch`] holds the pixels.

use crate::dither::map_visible_pixels;
use crate::quantizer::{color_map, to_oklab, to_srgb, train_palette, wu_quantize, ColorMap};
use crate::scratch::Scratch;
use crate::types::{Rgb, SixelError};
use quantette::deps::palette::Oklab;
use quantette::dither::FloydSteinberg;
use quantette::QuantizeMethod;
use vstd::prelude::*;

verus! {

/// Colors in Oklab.
pub open spec fn in_oklab(colors: Seq<Rgb>) -> Seq<Oklab> {
    colors.map_values(|color: Rgb| crate::quantizer::oklab_of(color))
}

/// Colors in sRGB.
pub open spec fn in_srgb(colors: Seq<Oklab>) -> Seq<Rgb> {
    colors.map_values(|color: Oklab| crate::quantizer::srgb_of(color))
}

/// The palette of an image of `colors`, each of which occurs `counts` times.
pub open spec fn counted_palette(colors: Seq<Rgb>, counts: Seq<u32>, size: u16) -> Seq<Rgb> {
    in_srgb(crate::quantizer::wu_quantized(in_oklab(colors), counts, size).0)
}

/// The palette index of each pixel of an image of `colors`, each of which occurs
/// `counts` times. `pixels` holds the index in `colors` of each pixel.
pub open spec fn counted_indices(
    colors: Seq<Rgb>,
    counts: Seq<u32>,
    pixels: Seq<u32>,
    size: u16,
) -> Seq<u8> {
    Seq::new(
        pixels.len(),
        |i: int|
            crate::quantizer::wu_quantized(in_oklab(colors), counts, size).1[pixels[i] as int],
    )
}

/// Give every pixel the palette index of its color. `pixels` holds the place of
/// the color of each pixel, and `found` the palette index of each color.
pub fn spread_indices(pixels: &Vec<u32>, found: &Vec<u8>, indices: &mut Vec<u8>)
    requires
        forall|i: int| 0 <= i < pixels@.len() ==> #[trigger] pixels@[i] < found@.len(),
    ensures
        final(indices)@ == Seq::new(pixels@.len(), |i: int| found@[pixels@[i] as int]),
{
    indices.clear();
    let mut i: usize = 0;
    while i < pixels.len()
        invariant
            i <= pixels@.len(),
            forall|k: int| 0 <= k < pixels@.len() ==> #[trigger] pixels@[k] < found@.len(),
            indices@.len() == i,
            forall|k: int| 0 <= k < i ==> #[trigger] indices@[k] == found@[pixels@[k] as int],
        decreases pixels@.len() - i,
    {
        let color: u32 = pixels[i];
        indices.push(found[color as usize]);
        i += 1;
    }
    assert(indices@ =~= Seq::new(pixels@.len(), |i: int| found@[pixels@[i] as int]));
}

/// Quantize the colors of `scratch.counted` with Wu, and leave the result in
/// `scratch.palette` and `scratch.indices`. Wu weighs each distinct color by
/// its count, so the palette is the one of Wu over every pixel, up to the
/// order of the float sums of its histogram.
pub fn quantize_counted_colors(scratch: &mut Scratch, size: u16)
    requires
        1 <= size <= 256,
        old(scratch).counted.colors@.len() == old(scratch).counted.counts@.len(),
        0 < crate::quantizer::total(old(scratch).counted.counts@) <= u32::MAX,
        forall|i: int|
            0 <= i < old(scratch).counted.pixels@.len()
                ==> #[trigger] old(scratch).counted.pixels@[i]
                < old(scratch).counted.colors@.len(),
    ensures
        final(scratch).palette@ == counted_palette(
            old(scratch).counted.colors@,
            old(scratch).counted.counts@,
            size,
        ),
        final(scratch).indices@ == counted_indices(
            old(scratch).counted.colors@,
            old(scratch).counted.counts@,
            old(scratch).counted.pixels@,
            size,
        ),
        0 < final(scratch).palette@.len() <= size,
        crate::dither::below(final(scratch).indices@, final(scratch).palette@.len()),
        final(scratch).counted == old(scratch).counted,
        final(scratch).opacity_mask == old(scratch).opacity_mask,
        final(scratch).rgb_pixels == old(scratch).rgb_pixels,
        final(scratch).bands == old(scratch).bands,
        final(scratch).dither == old(scratch).dither,
{
    let oklab: Vec<Oklab> = to_oklab(&scratch.counted.colors);
    let ghost colors = scratch.counted.colors@;
    let ghost counts = scratch.counted.counts@;
    assert(oklab@ == in_oklab(colors));
    let (palette, indices) = wu_quantize(oklab, &scratch.counted.counts, size);
    spread_indices(&scratch.counted.pixels, &indices, &mut scratch.indices);
    assert forall|i: int| 0 <= i < scratch.indices@.len() implies #[trigger] scratch.indices@[i]
        < palette@.len() by {
        assert(scratch.indices@[i] == indices@[scratch.counted.pixels@[i] as int]);
    }
    scratch.palette = to_srgb(&palette);
    assert(scratch.palette@ == in_srgb(palette@));
    assert(scratch.indices@ =~= counted_indices(
        colors,
        counts,
        old(scratch).counted.pixels@,
        size,
    ));
}

/// The colors of the opaque pixels among the first `count`, in their order.
pub open spec fn opaque_colors(pixels: Seq<Rgb>, visible: Seq<bool>, count: nat) -> Seq<Rgb>
    decreases count,
{
    if count == 0 {
        Seq::empty()
    } else {
        let before = opaque_colors(pixels, visible, (count - 1) as nat);
        if visible[count - 1] {
            before.push(pixels[count - 1])
        } else {
            before
        }
    }
}

/// There are no more opaque pixels than pixels, and one if a pixel is opaque.
pub proof fn opaque_colors_count(pixels: Seq<Rgb>, visible: Seq<bool>, count: nat)
    ensures
        opaque_colors(pixels, visible, count).len() <= count,
        opaque_colors(pixels, visible, count).len() == 0 <==> forall|i: int|
            0 <= i < count ==> !visible[i],
    decreases count,
{
    if count > 0 {
        opaque_colors_count(pixels, visible, (count - 1) as nat);
        if visible[count - 1] {
        } else if opaque_colors(pixels, visible, count).len() == 0 {
            assert forall|i: int| 0 <= i < count implies !visible[i] by {}
        } else {
            let i = choose|i: int| 0 <= i < count - 1 && visible[i];
            assert(visible[i]);
        }
    }
}

/// The palette of an image with transparent pixels.
pub open spec fn masked_palette(
    method: QuantizeMethod,
    size: u16,
    pixels: Seq<Rgb>,
    visible: Seq<bool>,
) -> Seq<Oklab> {
    crate::quantizer::trained_palette(
        method,
        size,
        opaque_colors(pixels, visible, pixels.len()),
    )
}

/// The palette index of each pixel of an image with transparent pixels.
pub open spec fn masked_indices(
    method: QuantizeMethod,
    size: u16,
    diffusion: Option<FloydSteinberg>,
    width: int,
    pixels: Seq<Rgb>,
    visible: Seq<bool>,
) -> Seq<u8> {
    crate::dither::mapped_indices(
        in_oklab(pixels),
        visible,
        width,
        masked_palette(method, size, pixels, visible),
        diffusion,
        Seq::new(pixels.len(), |i: int| 0u8),
    )
}

/// Quantette has no alpha-mask support. Train its palette only on visible pixels,
/// then map the layout of the image without diffusing error through transparent pixels.
/// Leaves the result in `scratch.palette` and `scratch.indices`.
pub fn quantize_transparent(
    scratch: &mut Scratch,
    width: usize,
    method: &QuantizeMethod,
    size: u16,
    diffusion: Option<FloydSteinberg>,
) -> (result: Result<(), SixelError>)
    requires
        1 <= size <= 256,
        old(scratch).rgb_pixels@.len() <= old(scratch).opacity_mask@.len(),
        diffusion is Some && opaque_colors(
            old(scratch).rgb_pixels@,
            old(scratch).opacity_mask@,
            old(scratch).rgb_pixels@.len(),
        ).len() > 0 ==> 0 < width && width + 2 <= usize::MAX,
    ensures
        final(scratch).rgb_pixels == old(scratch).rgb_pixels,
        final(scratch).opacity_mask == old(scratch).opacity_mask,
        final(scratch).counted == old(scratch).counted,
        final(scratch).bands == old(scratch).bands,
        final(scratch).dither.opaque_pixels@ == opaque_colors(
            old(scratch).rgb_pixels@,
            old(scratch).opacity_mask@,
            old(scratch).rgb_pixels@.len(),
        ),
        ({
            let pixels = old(scratch).rgb_pixels@;
            let visible = old(scratch).opacity_mask@;
            let opaque = opaque_colors(pixels, visible, pixels.len());
            if opaque.len() == 0 {
                &&& result is Ok
                &&& final(scratch).palette@ == Seq::<Rgb>::empty()
                &&& final(scratch).indices@ == Seq::<u8>::empty()
                &&& final(scratch).dither.colors == old(scratch).dither.colors
                &&& final(scratch).dither.current == old(scratch).dither.current
                &&& final(scratch).dither.next == old(scratch).dither.next
            } else if opaque.len() <= u32::MAX {
                &&& result is Ok
                &&& final(scratch).palette@ == in_srgb(
                    masked_palette(*method, size, pixels, visible),
                )
                &&& final(scratch).indices@ == masked_indices(
                    *method,
                    size,
                    diffusion,
                    width as int,
                    pixels,
                    visible,
                )
                &&& final(scratch).dither.colors@ == in_oklab(pixels)
                &&& match diffusion {
                    None => final(scratch).dither.current == old(scratch).dither.current
                        && final(scratch).dither.next == old(scratch).dither.next,
                    Some(ditherer) => {
                        let end = crate::dither::diffused(
                            in_oklab(pixels),
                            visible,
                            width as int,
                            masked_palette(*method, size, pixels, visible),
                            ditherer,
                            Seq::new(pixels.len(), |i: int| 0u8),
                        );
                        final(scratch).dither.current@ == end.current
                            && final(scratch).dither.next@ == end.next
                    },
                }
                &&& 0 < final(scratch).palette@.len() <= 256
                &&& crate::quantizer::method_kind(*method)
                    == crate::quantizer::MethodKind::CustomPalette || final(scratch).palette@.len()
                    <= size
                &&& final(scratch).indices@.len() == pixels.len()
                &&& forall|i: int|
                    0 <= i < pixels.len() && !visible[i] ==> #[trigger] final(scratch).indices@[i]
                        == 0
                &&& crate::dither::below(
                    final(scratch).indices@,
                    final(scratch).palette@.len(),
                )
            } else {
                &&& result matches Err(error) && error is Quantization
                &&& final(scratch).palette@ == Seq::<Rgb>::empty()
                &&& final(scratch).indices@ == Seq::<u8>::empty()
                &&& final(scratch).dither.colors == old(scratch).dither.colors
                &&& final(scratch).dither.current == old(scratch).dither.current
                &&& final(scratch).dither.next == old(scratch).dither.next
            }
        }),
{
    let ghost pixels = scratch.rgb_pixels@;
    let ghost visible = scratch.opacity_mask@;
    scratch.palette.clear();
    scratch.indices.clear();
    scratch.dither.opaque_pixels.clear();
    let count: usize = scratch.rgb_pixels.len();
    let mut i: usize = 0;
    while i < count
        invariant
            i <= count,
            count == pixels.len(),
            count <= visible.len(),
            scratch.rgb_pixels@ == pixels,
            scratch.opacity_mask@ == visible,
            scratch.rgb_pixels == old(scratch).rgb_pixels,
            scratch.opacity_mask == old(scratch).opacity_mask,
            scratch.counted == old(scratch).counted,
            scratch.bands == old(scratch).bands,
            scratch.dither.colors == old(scratch).dither.colors,
            scratch.dither.current == old(scratch).dither.current,
            scratch.dither.next == old(scratch).dither.next,
            scratch.palette@.len() == 0,
            scratch.indices@.len() == 0,
            scratch.dither.opaque_pixels@ == opaque_colors(pixels, visible, i as nat),
        decreases count - i,
    {
        if scratch.opacity_mask.get(i) {
            let pixel: Rgb = scratch.rgb_pixels[i];
            scratch.dither.opaque_pixels.push(pixel);
        }
        i += 1;
    }
    if scratch.dither.opaque_pixels.len() == 0 {
        // Raster attributes preserve the dimensions; no color or index is used.
        assert(scratch.palette@ =~= Seq::<Rgb>::empty());
        assert(scratch.indices@ =~= Seq::<u8>::empty());
        return Ok(());
    }
    let palette: Vec<Oklab> = match train_palette(method, size, &scratch.dither.opaque_pixels) {
        Ok(palette) => palette,
        Err(message) => {
            return Err(SixelError::Quantization(message));
        },
    };
    scratch.palette = to_srgb(&palette);
    let ghost colors = palette@;
    assert(scratch.palette@ == in_srgb(colors));
    let map: ColorMap = color_map(palette);
    scratch.dither.colors = to_oklab(&scratch.rgb_pixels);
    assert(scratch.dither.colors@ == in_oklab(pixels));
    scratch.indices.resize(count, 0);
    assert(scratch.indices@ =~= Seq::new(pixels.len(), |i: int| 0u8));
    map_visible_pixels(
        &mut scratch.dither,
        &scratch.opacity_mask,
        width,
        &map,
        diffusion,
        &mut scratch.indices,
    );
    Ok(())
}

} // verus!
