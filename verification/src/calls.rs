//! What a call of the encoder or of one of its parts returns and changes.

use crate::bands::Bands;
use crate::counted::Counted;
use crate::dither::Dither;
use crate::encoder::{EncodeOptions, SixelEncoder};
use crate::mask::BitMask;
use crate::quantizer::{ColorMap, MethodKind};
use crate::scratch::Scratch;
use crate::types::{BackgroundMode, Header, PixelAspectRatio, Rgb, SixelError};
use quantette::deps::palette::Oklab;
use quantette::dither::FloydSteinberg;
use quantette::QuantizeMethod;
use vstd::prelude::*;

verus! {

/// Whether an image has a pixel, at most 1,000,000 columns and at most 2^26
/// pixels.
pub open spec fn is_within_limits(width: usize, height: usize) -> bool {
    &&& 1 <= width <= 1_000_000
    &&& 1 <= height
    &&& width * height <= 67_108_864
}

/// Whether an error is the one for an image of `len` bytes: it has more bytes than
/// a `usize` counts, or it is not within the limits, or it does not have 4 bytes for
/// each pixel.
pub open spec fn is_refusal(error: SixelError, len: nat, width: usize, height: usize) -> bool {
    if width * height * 4 > usize::MAX {
        error is IntegerOverflow
    } else if !is_within_limits(width, height) {
        error == (SixelError::InvalidDimensions { width, height })
    } else {
        &&& len != 4 * (width * height)
        &&& error matches SixelError::BufferSizeMismatch { expected, actual } && expected == 4 * (
        width * height) && (len <= usize::MAX ==> actual == len)
    }
}

/// What is wrong with an image.
proof fn refusal_is(len: nat, width: usize, height: usize)
    ensures
        match crate::encoder::encode_error(len, width as int, height as int) {
            None => is_within_limits(width, height) && len == 4 * (width * height),
            Some(error) => is_refusal(error, len, width, height),
        },
{
    assert(width == 0 || height == 0 ==> width * height == 0) by (nonlinear_arith);
}

/// Dimensions are accepted if and only if they are within the limits.
pub proof fn dimensions_within_the_limits_are_accepted(
    width: usize,
    height: usize,
    result: Result<(), SixelError>,
)
    requires
        call_ensures(crate::types::validate_encode_dimensions, (width, height), result),
    ensures
        result is Ok <==> is_within_limits(width, height),
        result is Err ==> is_refusal(
            result->Err_0,
            4 * (width as nat * height as nat),
            width,
            height,
        ),
{
    refusal_is(4 * (width as nat * height as nat), width, height);
    assert(width == 0 || height == 0 ==> width * height == 0) by (nonlinear_arith);
}

/// An image within the limits and with 4 bytes for each pixel is encoded: its
/// SIXEL comes after what `out` held, and every index is that of a color of the
/// palette, which has no more colors than the options say unless the caller
/// brought it. Any other image is refused, and `out` stays as it was. The
/// encoder keeps its settings.
pub proof fn the_sixel_is_appended(
    encoder: &mut SixelEncoder,
    rgba: &[u8],
    width: usize,
    height: usize,
    out: &mut Vec<u8>,
    result: Result<(), SixelError>,
    header: Header,
    size: u16,
)
    requires
        call_ensures(SixelEncoder::encode_into, (encoder, rgba, width, height, out), result),
        header.width == width,
        header.height == height,
        header.aspect_ratio == old(encoder).aspect_ratio(),
        header.background_mode == old(encoder).background_mode(),
        crate::meaning::is_limit(old(encoder).options().max_colors, size),
    ensures
        final(encoder).options() == old(encoder).options(),
        final(encoder).exact_palette() == old(encoder).exact_palette(),
        final(encoder).aspect_ratio() == old(encoder).aspect_ratio(),
        final(encoder).background_mode() == old(encoder).background_mode(),
        result is Ok <==> is_within_limits(width, height) && rgba@.len() == 4 * (width * height),
        result is Err ==> is_refusal(result->Err_0, rgba@.len(), width, height),
        result is Err ==> final(out)@ == old(out)@,
        result is Ok ==> ({
            let image = old(encoder).indexed(rgba@, width, height);
            &&& final(out)@ == old(out)@ + crate::bands::sixel_of(
                image.palette,
                image.cells,
                header,
            )
            &&& image.cells.len() == width * height
            &&& forall|i: int|
                0 <= i < width * height && #[trigger] crate::meaning::opaque_at(rgba@, i) ==> (
                image.cells[i] matches Some(index) && index < image.palette.len())
            &&& image.palette.len() <= 256
            &&& image.palette.len() <= size || crate::quantizer::method_kind(
                old(encoder).options().quantize_method,
            ) == MethodKind::CustomPalette
        }),
{
    refusal_is(rgba@.len(), width, height);
    crate::meaning::the_sixel_is_that_of_the_image(*old(encoder), rgba@, width, height, header);
    if result is Ok {
        let image = old(encoder).indexed(rgba@, width, height);
        assert forall|i: int|
            0 <= i < width * height && #[trigger] crate::meaning::opaque_at(rgba@, i) implies (
        image.cells[i] matches Some(index) && index < image.palette.len()) by {
            crate::meaning::alpha_of_128_and_up_is_painted(
                *old(encoder),
                rgba@,
                width,
                height,
                i,
            );
        }
    }
}

/// Whether a result is the SIXEL of an encoder as text, one character for each
/// byte, or the error for the image.
pub open spec fn is_text_of(
    result: Result<String, SixelError>,
    encoder: SixelEncoder,
    rgba: Seq<u8>,
    width: usize,
    height: usize,
) -> bool {
    &&& result is Ok <==> is_within_limits(width, height) && rgba.len() == 4 * (width * height)
    &&& result is Err ==> is_refusal(result->Err_0, rgba.len(), width, height)
    &&& result is Ok ==> (result->Ok_0)@.len() == encoder.encoded(rgba, width, height).len()
    &&& result is Ok ==> forall|i: int|
        0 <= i < (result->Ok_0)@.len() ==> #[trigger] (result->Ok_0)@[i] as u32 == encoder.encoded(
            rgba,
            width,
            height,
        )[i] as u32
}

/// `sixel_encode` writes what an encoder of the options writes that has no exact
/// palette, square pixels and a transparent background.
pub proof fn a_string_is_the_sixel(
    rgba: &[u8],
    width: usize,
    height: usize,
    options: &EncodeOptions,
    result: Result<String, SixelError>,
    encoder: SixelEncoder,
)
    requires
        call_ensures(crate::encoder::sixel_encode, (rgba, width, height, options), result),
        encoder.options() == *options,
        !encoder.exact_palette(),
        encoder.aspect_ratio() == PixelAspectRatio::Square,
        encoder.background_mode() == BackgroundMode::Transparent,
    ensures
        is_text_of(result, encoder, rgba@, width, height),
{
    refusal_is(rgba@.len(), width, height);
    crate::meaning::a_string_has_the_bytes_of_the_encoder(encoder, rgba@, width, height, result);
}

/// `sixel_encode_impl` writes what an encoder of the options, the aspect ratio and
/// the background mode writes that has no exact palette.
pub proof fn a_string_is_the_sixel_of_the_settings(
    rgba: &[u8],
    width: usize,
    height: usize,
    options: &EncodeOptions,
    aspect_ratio: PixelAspectRatio,
    background_mode: BackgroundMode,
    result: Result<String, SixelError>,
    encoder: SixelEncoder,
)
    requires
        call_ensures(
            crate::encoder::sixel_encode_impl,
            (rgba, width, height, options, aspect_ratio, background_mode),
            result,
        ),
        encoder.options() == *options,
        !encoder.exact_palette(),
        encoder.aspect_ratio() == aspect_ratio,
        encoder.background_mode() == background_mode,
    ensures
        is_text_of(result, encoder, rgba@, width, height),
{
    refusal_is(rgba@.len(), width, height);
    crate::meaning::a_string_has_the_bytes_of_the_encoder(encoder, rgba@, width, height, result);
}

/// `sixel_encode_default` writes what a new encoder writes.
pub proof fn a_string_by_default_is_that_of_a_new_encoder(
    rgba: &[u8],
    width: usize,
    height: usize,
    result: Result<String, SixelError>,
    encoder: SixelEncoder,
)
    requires
        call_ensures(crate::encoder::sixel_encode_default, (rgba, width, height), result),
        call_ensures(SixelEncoder::new, (), encoder),
    ensures
        is_text_of(result, encoder, rgba@, width, height),
{
    refusal_is(rgba@.len(), width, height);
    crate::meaning::a_string_has_the_bytes_of_the_encoder(encoder, rgba@, width, height, result);
}

/// A new encoder uses 256 colors from Wu's method, error diffusion at 7 eighths,
/// no exact palette, square pixels and a transparent background.
pub proof fn a_new_encoder_has_the_default_settings(encoder: SixelEncoder)
    requires
        call_ensures(SixelEncoder::new, (), encoder),
    ensures
        encoder.options().max_colors == 256,
        crate::quantizer::method_kind(encoder.options().quantize_method) == MethodKind::Wu,
        encoder.options().diffusion is Some,
        crate::quantizer::diffusion_strength(encoder.options().diffusion->0)
            == crate::quantizer::oklab_quotient(
            crate::quantizer::oklab_level(7),
            crate::quantizer::oklab_level(8),
        ),
        !encoder.exact_palette(),
        encoder.aspect_ratio() == PixelAspectRatio::Square,
        encoder.background_mode() == BackgroundMode::Transparent,
{
    crate::meaning::default_options_are_wu_with_dithering(encoder.options());
}

/// The default options are 256 colors from Wu's method and error diffusion at 7
/// eighths, an encoder starts with them, pixels are square by default and the
/// background is transparent. A copy of options is the same options.
pub proof fn defaults_are_these(
    options: EncodeOptions,
    copy: EncodeOptions,
    encoder: SixelEncoder,
    ratio: PixelAspectRatio,
    mode: BackgroundMode,
)
    requires
        call_ensures(<EncodeOptions as Default>::default, (), options),
        call_ensures(<EncodeOptions as Clone>::clone, (&options,), copy),
        call_ensures(<SixelEncoder as Default>::default, (), encoder),
        call_ensures(<PixelAspectRatio as Default>::default, (), ratio),
        call_ensures(<BackgroundMode as Default>::default, (), mode),
    ensures
        options.max_colors == 256,
        crate::quantizer::method_kind(options.quantize_method) == MethodKind::Wu,
        options.diffusion is Some,
        crate::quantizer::diffusion_strength(options.diffusion->0)
            == crate::quantizer::oklab_quotient(
            crate::quantizer::oklab_level(7),
            crate::quantizer::oklab_level(8),
        ),
        copy == options,
        encoder.options() == options,
        !encoder.exact_palette(),
        encoder.aspect_ratio() == ratio,
        encoder.background_mode() == mode,
        ratio is Square,
        mode is Transparent,
{
    crate::meaning::default_options_are_wu_with_dithering(options);
}

/// Each setter sets its setting and keeps the others.
pub proof fn a_setter_sets_one_setting(
    before: SixelEncoder,
    options: EncodeOptions,
    exact_palette: bool,
    aspect_ratio: PixelAspectRatio,
    background_mode: BackgroundMode,
    optioned: SixelEncoder,
    exact: SixelEncoder,
    shaped: SixelEncoder,
    backed: SixelEncoder,
)
    requires
        call_ensures(SixelEncoder::with_options, (before, options), optioned),
        call_ensures(SixelEncoder::with_exact_palette, (before, exact_palette), exact),
        call_ensures(SixelEncoder::with_aspect_ratio, (before, aspect_ratio), shaped),
        call_ensures(SixelEncoder::with_background_mode, (before, background_mode), backed),
    ensures
        optioned.options() == options,
        exact.options() == before.options(),
        shaped.options() == before.options(),
        backed.options() == before.options(),
        optioned.exact_palette() == before.exact_palette(),
        exact.exact_palette() == exact_palette,
        shaped.exact_palette() == before.exact_palette(),
        backed.exact_palette() == before.exact_palette(),
        optioned.aspect_ratio() == before.aspect_ratio(),
        exact.aspect_ratio() == before.aspect_ratio(),
        shaped.aspect_ratio() == aspect_ratio,
        backed.aspect_ratio() == before.aspect_ratio(),
        optioned.background_mode() == before.background_mode(),
        exact.background_mode() == before.background_mode(),
        shaped.background_mode() == before.background_mode(),
        backed.background_mode() == background_mode,
{
}

/// The numbers that stand for an aspect ratio. A pixel is 1, 2, 3 or 5 times as
/// high as it is wide.
pub proof fn an_aspect_ratio_has_its_numbers(
    ratio: PixelAspectRatio,
    p1: u8,
    vertical: u8,
    horizontal: u8,
)
    requires
        call_ensures(PixelAspectRatio::to_p1_value, (ratio,), p1),
        call_ensures(PixelAspectRatio::pad, (ratio,), vertical),
        call_ensures(PixelAspectRatio::pan, (ratio,), horizontal),
    ensures
        (p1, vertical) == match ratio {
            PixelAspectRatio::Square => (9u8, 1u8),
            PixelAspectRatio::TwoToOne => (0u8, 2u8),
            PixelAspectRatio::ThreeToOne => (3u8, 3u8),
            PixelAspectRatio::FiveToOne => (2u8, 5u8),
        },
        horizontal == 1,
{
}

/// The numbers that stand for a background mode.
pub proof fn a_background_mode_has_its_number(mode: BackgroundMode, p2: u8)
    requires
        call_ensures(BackgroundMode::to_p2_value, (mode,), p2),
    ensures
        p2 == match mode {
            BackgroundMode::Transparent => 1u8,
            BackgroundMode::Opaque => 0u8,
        },
{
}

/// An opaque image goes to the quantizer by its colors with Wu's method and without
/// dithering only.
pub proof fn wu_without_dithering_goes_by_colors(
    kind: MethodKind,
    diffusion: Option<FloydSteinberg>,
    by_colors: bool,
)
    requires
        call_ensures(crate::encoder::goes_by_colors, (kind, diffusion), by_colors),
    ensures
        by_colors <==> kind is Wu && diffusion is None,
{
}

/// Every pixel of an image whose colors fit in the budget gets the index of its
/// color, and an image whose colors do not fit is told apart.
pub proof fn colors_that_fit_are_indexed(
    rgba: &[u8],
    budget: usize,
    scratch: &mut Scratch,
    fits: bool,
    colors: Seq<Rgb>,
)
    requires
        budget <= 256,
        call_ensures(crate::palette::index_exact_colors, (rgba, budget, scratch), fits),
        crate::meaning::holds_opaque_colors(rgba@, colors),
    ensures
        colors.len() <= budget ==> fits,
        fits ==> final(scratch).palette@.len() <= colors.len()
            && final(scratch).palette@.len() <= budget,
        fits ==> final(scratch).palette@.no_duplicates(),
        fits ==> final(scratch).indices@.len() == rgba@.len() / 4,
        fits ==> forall|i: int|
            0 <= i < rgba@.len() / 4 && #[trigger] crate::meaning::opaque_at(rgba@, i) ==> (
            final(scratch).indices@[i] < final(scratch).palette@.len()
                && final(scratch).palette@[final(scratch).indices@[i] as int]
                == crate::meaning::rgb_at(rgba@, i)),
        fits ==> forall|k: int|
            0 <= k < final(scratch).palette@.len() ==> #[trigger] crate::meaning::is_brought(
                rgba@,
                final(scratch).palette@,
                k,
            ),
        fits ==> forall|i: int|
            0 <= i < rgba@.len() / 4 ==> #[trigger] final(scratch).opacity_mask@[i] == (rgba@[4 * i
                + 3] >= 128),
{
    let count = rgba@.len() / 4;
    let all = crate::image::distinct_colors(rgba@, count);
    crate::meaning::distinct_colors_are_the_fewest(rgba@, colors);
    crate::image::distinct_colors_are_the_visible_ones(rgba@, count);
    if fits {
        let palette = final(scratch).palette@;
        let indices = final(scratch).indices@;
        assert forall|i: int|
            0 <= i < count && #[trigger] crate::meaning::opaque_at(rgba@, i) implies (indices[i]
            < palette.len() && palette[indices[i] as int] == crate::meaning::rgb_at(rgba@, i)) by {
            crate::parts::exact_indices_point_at_the_color(rgba@, count as int, i);
        }
        assert forall|k: int| 0 <= k < palette.len() implies #[trigger] crate::meaning::is_brought(
            rgba@,
            palette,
            k,
        ) by {
            crate::parts::distinct_colors_come_in_order(rgba@, count, k);
        }
    }
}

/// Colors that do not fit in the budget cannot be held by a palette of that size.
pub proof fn colors_over_the_budget_are_told_apart(
    rgba: &[u8],
    budget: usize,
    scratch: &mut Scratch,
    fits: bool,
    colors: Seq<Rgb>,
)
    requires
        budget <= 256,
        call_ensures(crate::palette::index_exact_colors, (rgba, budget, scratch), fits),
        !fits,
        crate::meaning::holds_opaque_colors(rgba@, colors),
    ensures
        colors.len() > budget,
{
    crate::meaning::distinct_colors_are_the_fewest(rgba@, colors);
}

/// The pixels of an opaque image are counted by their color, and an image with a
/// transparent pixel is told apart.
pub proof fn opaque_pixels_are_counted(rgba: &[u8], scratch: &mut Scratch, opaque: bool)
    requires
        call_ensures(crate::palette::count_opaque_colors, (rgba, scratch), opaque),
    ensures
        opaque <==> forall|i: int|
            0 <= i < rgba@.len() / 4 ==> #[trigger] crate::meaning::opaque_at(rgba@, i),
        opaque ==> ({
            let counted = final(scratch).counted;
            &&& counted.colors@.no_duplicates()
            &&& forall|k: int|
                0 <= k < counted.colors@.len() ==> #[trigger] crate::meaning::is_brought(
                    rgba@,
                    counted.colors@,
                    k,
                )
            &&& counted.pixels@.len() == rgba@.len() / 4
            &&& forall|i: int|
                0 <= i < rgba@.len() / 4 ==> #[trigger] counted.pixels@[i] < counted.colors@.len()
                    && counted.colors@[counted.pixels@[i] as int] == crate::meaning::rgb_at(
                    rgba@,
                    i,
                )
            &&& counted.counts@.len() == counted.colors@.len()
            &&& forall|k: int|
                0 <= k < counted.colors@.len() ==> #[trigger] counted.counts@[k]
                    == crate::meaning::all_rgb(rgba@).to_multiset().count(counted.colors@[k])
            &&& forall|i: int|
                0 <= i < rgba@.len() / 4 ==> #[trigger] final(scratch).opacity_mask@[i]
        }),
{
    let count = rgba@.len() / 4;
    if opaque {
        let counted = final(scratch).counted;
        assert forall|i: int| 0 <= i < count implies #[trigger] crate::meaning::opaque_at(
            rgba@,
            i,
        ) by {
            assert(crate::image::is_visible(rgba@, i));
        }
        crate::parts::pixels_are_counted_by_their_color(
            rgba@,
            count,
            counted.colors@,
            counted.counts@,
            counted.pixels@,
        );
        assert(crate::meaning::all_rgb(rgba@).take(count as int) =~= crate::meaning::all_rgb(
            rgba@,
        ));
        assert forall|i: int| 0 <= i < count implies #[trigger] final(scratch).opacity_mask@[i] by {
            assert(crate::image::is_visible(rgba@, i));
        }
    } else {
        let hidden = choose|i: int| 0 <= i < count && !(#[trigger] crate::image::is_visible(
            rgba@,
            i,
        ));
        assert(!crate::meaning::opaque_at(rgba@, hidden));
    }
}

/// The counted colors go to Wu's quantizer, and every pixel takes the index of its
/// color.
pub proof fn counted_colors_go_to_wu(
    scratch: &mut Scratch,
    size: u16,
    oklab: Seq<Oklab>,
)
    requires
        call_ensures(crate::quantize::quantize_counted_colors, (scratch, size), ()),
        oklab.len() == old(scratch).counted.colors@.len(),
        forall|k: int|
            0 <= k < oklab.len() ==> #[trigger] oklab[k] == crate::quantizer::oklab_of(
                old(scratch).counted.colors@[k],
            ),
    ensures
        ({
            let wu = crate::quantizer::wu_quantized(oklab, old(scratch).counted.counts@, size);
            let pixels = old(scratch).counted.pixels@;
            &&& final(scratch).palette@.len() == wu.0.len()
            &&& forall|k: int|
                0 <= k < wu.0.len() ==> #[trigger] final(scratch).palette@[k]
                    == crate::quantizer::srgb_of(wu.0[k])
            &&& final(scratch).indices@.len() == pixels.len()
            &&& forall|i: int|
                0 <= i < pixels.len() ==> #[trigger] final(scratch).indices@[i]
                    == wu.1[pixels[i] as int]
        }),
{
    assert(crate::quantize::in_oklab(old(scratch).counted.colors@) =~= oklab);
}

/// The palette of an image with transparent pixels is trained on the visible ones.
/// Without error diffusion each of these takes the color of it that is nearest to
/// its own.
pub proof fn visible_pixels_are_quantized(
    scratch: &mut Scratch,
    width: usize,
    method: &QuantizeMethod,
    size: u16,
    result: Result<(), SixelError>,
    i: int,
)
    requires
        call_ensures(
            crate::quantize::quantize_transparent,
            (scratch, width, method, size, None::<FloydSteinberg>),
            result,
        ),
        old(scratch).rgb_pixels@.len() <= u32::MAX,
        0 <= i < old(scratch).rgb_pixels@.len(),
        old(scratch).opacity_mask@[i],
    ensures
        result is Ok,
        ({
            let pixels = old(scratch).rgb_pixels@;
            let palette = crate::quantizer::trained_palette(
                *method,
                size,
                crate::parts::seen_colors(pixels, old(scratch).opacity_mask@),
            );
            &&& final(scratch).palette@.len() == palette.len()
            &&& forall|k: int|
                0 <= k < palette.len() ==> #[trigger] final(scratch).palette@[k]
                    == crate::quantizer::srgb_of(palette[k])
            &&& final(scratch).indices@.len() == pixels.len()
            &&& final(scratch).indices@[i] == crate::quantizer::nearest(
                palette,
                crate::quantizer::oklab_of(pixels[i]),
            )
        }),
{
    let pixels = old(scratch).rgb_pixels@;
    let visible = old(scratch).opacity_mask@;
    crate::parts::visible_pixels_train_the_palette(
        *method,
        size,
        width as int,
        pixels,
        visible,
        i,
    );
    crate::quantize::opaque_colors_count(pixels, visible, pixels.len());
}

/// An image without a visible pixel gets no palette and no indices. An image with
/// one gets index 0 for its transparent pixels.
pub proof fn hidden_pixels_are_not_quantized(
    scratch: &mut Scratch,
    width: usize,
    method: &QuantizeMethod,
    size: u16,
    diffusion: Option<FloydSteinberg>,
    result: Result<(), SixelError>,
    i: int,
)
    requires
        call_ensures(
            crate::quantize::quantize_transparent,
            (scratch, width, method, size, diffusion),
            result,
        ),
        old(scratch).rgb_pixels@.len() <= u32::MAX,
        0 <= i < old(scratch).rgb_pixels@.len(),
        !old(scratch).opacity_mask@[i],
    ensures
        result is Ok,
        final(scratch).rgb_pixels@ == old(scratch).rgb_pixels@,
        final(scratch).opacity_mask@ == old(scratch).opacity_mask@,
        ({
            let pixels = old(scratch).rgb_pixels@;
            if forall|j: int|
                0 <= j < pixels.len() ==> !(#[trigger] old(scratch).opacity_mask@[j]) {
                final(scratch).palette@.len() == 0 && final(scratch).indices@.len() == 0
            } else {
                final(scratch).indices@.len() == pixels.len() && final(scratch).indices@[i] == 0
            }
        }),
{
    let pixels = old(scratch).rgb_pixels@;
    crate::quantize::opaque_colors_count(pixels, old(scratch).opacity_mask@, pixels.len());
}

/// With error diffusion every visible pixel takes the color of the trained palette
/// that is nearest to its own plus the error that reaches it, `seen`.
pub proof fn visible_pixels_are_quantized_with_their_error(
    scratch: &mut Scratch,
    width: usize,
    method: &QuantizeMethod,
    size: u16,
    ditherer: FloydSteinberg,
    result: Result<(), SixelError>,
    opaque: int,
) -> (seen: spec_fn(int, int) -> Oklab)
    requires
        call_ensures(
            crate::quantize::quantize_transparent,
            (scratch, width, method, size, Some(ditherer)),
            result,
        ),
        0 < width,
        old(scratch).rgb_pixels@.len() <= u32::MAX,
        0 <= opaque < old(scratch).rgb_pixels@.len(),
        old(scratch).opacity_mask@[opaque],
    ensures
        result is Ok,
        ({
            let pixels = old(scratch).rgb_pixels@;
            let visible = old(scratch).opacity_mask@;
            let palette = crate::quantizer::trained_palette(
                *method,
                size,
                crate::parts::seen_colors(pixels, visible),
            );
            &&& final(scratch).palette@.len() == palette.len()
            &&& forall|k: int|
                0 <= k < palette.len() ==> #[trigger] final(scratch).palette@[k]
                    == crate::quantizer::srgb_of(palette[k])
            &&& forall|y: int, x: int|
                crate::dither::is_on(visible, width as int, y, x) && (y + 1) * width
                    <= pixels.len() ==> {
                    &&& #[trigger] seen(y, x) == crate::quantizer::oklab_sum(
                        crate::quantizer::oklab_of(pixels[y * width + x]),
                        crate::dither::received(
                            visible,
                            width as int,
                            |a: int, b: int|
                                crate::dither::error_of(palette, ditherer, seen(a, b)),
                            y,
                            x,
                        ),
                    )
                    &&& final(scratch).indices@[y * width + x] == crate::quantizer::nearest(
                        palette,
                        seen(y, x),
                    )
                }
        }),
{
    let pixels = old(scratch).rgb_pixels@;
    let visible = old(scratch).opacity_mask@;
    crate::parts::visible_pixels_train_the_palette(
        *method,
        size,
        width as int,
        pixels,
        visible,
        opaque,
    );
    crate::quantize::opaque_colors_count(pixels, visible, pixels.len());
    crate::parts::visible_pixels_diffuse_their_error(
        *method,
        size,
        ditherer,
        width as int,
        pixels,
        visible,
    )
}

/// Without error diffusion every visible pixel takes the palette color nearest to
/// its own, and the other indices are left.
pub proof fn pixels_are_mapped_to_the_nearest_color(
    dither: &mut Dither,
    opacity_mask: &BitMask,
    width: usize,
    color_map: &ColorMap,
    indices: &mut Vec<u8>,
    i: int,
)
    requires
        call_ensures(
            crate::dither::map_visible_pixels,
            (dither, opacity_mask, width, color_map, None::<FloydSteinberg>, indices),
            (),
        ),
        0 <= i < old(indices)@.len(),
    ensures
        final(indices)@.len() == old(indices)@.len(),
        final(indices)@[i] == if i < old(dither).colors@.len() && opacity_mask@[i] {
            crate::quantizer::nearest(
                crate::quantizer::map_palette(*color_map),
                old(dither).colors@[i],
            )
        } else {
            old(indices)@[i]
        },
        final(dither).colors@ == old(dither).colors@,
{
}

/// With error diffusion every visible pixel takes the palette color nearest to its
/// own plus the error that reaches it, `seen`.
pub proof fn pixels_are_mapped_with_their_error(
    dither: &mut Dither,
    opacity_mask: &BitMask,
    width: usize,
    color_map: &ColorMap,
    ditherer: FloydSteinberg,
    indices: &mut Vec<u8>,
) -> (seen: spec_fn(int, int) -> Oklab)
    requires
        call_ensures(
            crate::dither::map_visible_pixels,
            (dither, opacity_mask, width, color_map, Some(ditherer), indices),
            (),
        ),
        0 < width,
        old(dither).colors@.len() <= old(indices)@.len(),
    ensures
        final(indices)@.len() == old(indices)@.len(),
        final(dither).colors@ == old(dither).colors@,
        forall|i: int|
            0 <= i < old(indices)@.len() && (i >= old(dither).colors@.len() || !opacity_mask@[i])
                ==> #[trigger] final(indices)@[i] == old(indices)@[i],
        ({
            let colors = old(dither).colors@;
            let palette = crate::quantizer::map_palette(*color_map);
            forall|y: int, x: int|
                crate::dither::is_on(opacity_mask@, width as int, y, x) && (y + 1) * width
                    <= colors.len() ==> {
                    &&& #[trigger] seen(y, x) == crate::quantizer::oklab_sum(
                        colors[y * width + x],
                        crate::dither::received(
                            opacity_mask@,
                            width as int,
                            |a: int, b: int|
                                crate::dither::error_of(palette, ditherer, seen(a, b)),
                            y,
                            x,
                        ),
                    )
                    &&& final(indices)@[y * width + x] == crate::quantizer::nearest(
                        palette,
                        seen(y, x),
                    )
                }
        }),
{
    crate::dither::error_diffusion_spreads_the_error_of_every_visible_pixel(
        old(dither).colors@,
        opacity_mask@,
        width as int,
        crate::quantizer::map_palette(*color_map),
        ditherer,
        old(indices)@,
    )
}

/// Step `step` of a row is at that column from the left in an even row, and from
/// the right in an odd one.
pub proof fn a_step_is_at_its_column(width: usize, y: usize, step: usize, x: usize)
    requires
        step < width,
        call_ensures(crate::dither::serpentine_column, (width, y, step), x),
    ensures
        y % 2 == 0 ==> x == step,
        y % 2 == 1 ==> x + step == width - 1,
{
}

/// A pixel hands on 7 sixteenths of its error to the next pixel of its row, and 3,
/// 5 and 1 to the pixels behind, below and ahead of it in the row below. The error
/// of column `x` is at `x + 1`.
pub proof fn a_pixel_hands_on_its_error(
    current: &mut Vec<Oklab>,
    next: &mut Vec<Oklab>,
    y: usize,
    x: usize,
    adjusted: Oklab,
    found: Oklab,
    strength: Oklab,
    share: Oklab,
    ahead: int,
    behind: int,
    place: int,
)
    requires
        call_ensures(
            crate::dither::hand_on_error,
            (current, next, y, x, adjusted, found, strength),
            (),
        ),
        x + 2 < old(current)@.len(),
        x + 2 < old(next)@.len(),
        share == crate::quantizer::oklab_quotient(
            crate::quantizer::oklab_product(
                crate::quantizer::oklab_difference(adjusted, found),
                strength,
            ),
            crate::quantizer::oklab_level(16),
        ),
        y % 2 == 0 ==> ahead == x + 2 && behind == x,
        y % 2 == 1 ==> ahead == x && behind == x + 2,
    ensures
        final(current)@.len() == old(current)@.len(),
        0 <= place < old(current)@.len() ==> final(current)@[place] == if place == ahead {
            crate::quantizer::oklab_sum(
                old(current)@[place],
                crate::quantizer::oklab_product(share, crate::quantizer::oklab_level(7)),
            )
        } else {
            old(current)@[place]
        },
        final(next)@.len() == old(next)@.len(),
        0 <= place < old(next)@.len() ==> final(next)@[place] == if place == behind {
            crate::quantizer::oklab_sum(
                old(next)@[place],
                crate::quantizer::oklab_product(share, crate::quantizer::oklab_level(3)),
            )
        } else if place == x + 1 {
            crate::quantizer::oklab_sum(
                old(next)@[place],
                crate::quantizer::oklab_product(share, crate::quantizer::oklab_level(5)),
            )
        } else if place == ahead {
            crate::quantizer::oklab_sum(old(next)@[place], share)
        } else {
            old(next)@[place]
        },
{
    crate::parts::error_goes_to_four_neighbors(
        old(current)@,
        old(next)@,
        y as int,
        x as int,
        adjusted,
        found,
        strength,
        share,
        ahead,
        behind,
        place,
    );
}

/// The SIXEL of the pixels whose bit is set, each with its index, comes after what
/// `out` held.
pub proof fn the_sixel_of_the_indices_is_appended(
    palette: &[Rgb],
    indices: &[u8],
    opacity_mask: &BitMask,
    header: Header,
    bands: &mut Bands,
    out: &mut Vec<u8>,
    cells: Seq<Option<u8>>,
)
    requires
        call_ensures(
            crate::bands::encode_indexed_to_sixel,
            (palette, indices, opacity_mask, header, bands, out),
            (),
        ),
        cells.len() == header.width * header.height,
        forall|i: int|
            0 <= i < cells.len() ==> #[trigger] cells[i] == if opacity_mask@[i] {
                Some(indices@[i])
            } else {
                None
            },
    ensures
        final(out)@ == old(out)@ + crate::bands::sixel_of(palette@, cells, header),
{
    assert(crate::bands::cells_of(
        indices@,
        opacity_mask@,
        (header.width * header.height) as nat,
    ) =~= cells);
}

/// A number comes after what `out` held, in decimal, and so do empty sixels, in
/// runs.
pub proof fn numbers_and_blanks_are_appended(
    numbered: &mut Vec<u8>,
    n: usize,
    blanked: &mut Vec<u8>,
    len: usize,
)
    requires
        call_ensures(crate::number::write_number, (numbered, n), ()),
        call_ensures(crate::runs::write_empty_run, (blanked, len), ()),
    ensures
        final(numbered)@ == old(numbered)@ + crate::number::decimal(n as nat),
        final(blanked)@ == old(blanked)@ + crate::runs::run_length_encoded(
            crate::written::copies(len as nat, 0),
        ),
{
    assert(crate::runs::blanks(len as nat) =~= crate::written::copies(len as nat, 0));
}

/// A run is the pixels from a column on that are of one index, or transparent, up
/// to the first that is not.
pub proof fn a_run_is_of_one_index(
    indices: &[u8],
    mask: &BitMask,
    first: usize,
    x: usize,
    width: usize,
    run: (usize, Option<u8>),
    i: int,
)
    requires
        call_ensures(
            crate::runs::run_at,
            (indices, Some(mask), first, x, width),
            run,
        ),
        x <= i < run.0,
    ensures
        x < run.0 <= width,
        run.1 == if mask@[first + i] {
            Some(indices@[first + i])
        } else {
            None
        },
        run.0 < width ==> run.1 != if mask@[first + run.0] {
            Some(indices@[first + run.0])
        } else {
            None
        },
{
    assert(crate::runs::pixel_at(
        indices@,
        crate::runs::opacity_view(Some(mask)),
        first + i,
    ) == run.1);
}

/// Without a mask every pixel is opaque.
pub proof fn a_run_of_an_opaque_image_is_of_one_index(
    indices: &[u8],
    first: usize,
    x: usize,
    width: usize,
    run: (usize, Option<u8>),
    i: int,
)
    requires
        call_ensures(
            crate::runs::run_at,
            (indices, None::<&BitMask>, first, x, width),
            run,
        ),
        x <= i < run.0,
    ensures
        x < run.0 <= width,
        run.1 == Some(indices@[first + i]),
        run.0 < width ==> run.1 != Some(indices@[first + run.0]),
{
    assert(crate::runs::pixel_at(
        indices@,
        crate::runs::opacity_view(None::<&BitMask>),
        first + i,
    ) == run.1);
}

/// A new mask has room for its bits, in whole words, and all are cleared. Setting
/// a bit sets that bit alone, and reading a bit tells whether it is set.
pub proof fn a_mask_keeps_its_bits(
    len: usize,
    zeros: BitMask,
    cleared: &mut BitMask,
    mask: &mut BitMask,
    index: usize,
    read: &BitMask,
    at: usize,
    bit: bool,
    i: int,
)
    requires
        call_ensures(BitMask::zeros, (len,), zeros),
        call_ensures(BitMask::reset, (cleared, len), ()),
        call_ensures(BitMask::set, (mask, index), ()),
        index < old(mask)@.len(),
        call_ensures(BitMask::get, (read, at), bit),
    ensures
        len <= zeros@.len() < len + 64,
        final(cleared)@ == zeros@,
        0 <= i < zeros@.len() ==> !zeros@[i],
        final(mask)@.len() == old(mask)@.len(),
        0 <= i < final(mask)@.len() ==> final(mask)@[i] == (i == index || old(mask)@[i]),
        bit == read@[at as int],
{
}

/// A mask is full if its first bits are set.
pub proof fn a_full_mask_has_every_bit(mask: &BitMask, len: usize, full: bool)
    requires
        call_ensures(BitMask::is_full, (mask, len), full),
        len <= mask@.len(),
    ensures
        full <==> forall|i: int| 0 <= i < len ==> #[trigger] mask@[i],
{
}

/// The first slot to try for a color in a table of `2^bits` slots is the top bits
/// of its hash.
pub proof fn a_slot_is_the_hash_of_the_color(rgb: [u8; 3], len: usize, bits: nat, slot: usize)
    requires
        call_ensures(crate::counted::fibonacci_slot, (rgb, len), slot),
        bits <= 32,
        len == vstd::arithmetic::power2::pow2(bits),
    ensures
        slot == (((rgb[0] * 65536 + rgb[1] * 256 + rgb[2]) * 0x9E37_79B1) % 0x1_0000_0000)
            / vstd::arithmetic::power2::pow2((32 - bits) as nat) as int,
{
    crate::parts::a_search_starts_at_the_hash_of_the_color(rgb[0], rgb[1], rgb[2], bits);
}

/// A color is found where it is, or joins the colors with a count of zero. The
/// counts of the others stay.
pub proof fn a_color_joins_once(counted: &mut Counted, color: Rgb, index: u32)
    requires
        call_ensures(Counted::find_or_insert, (counted, color), index),
    ensures
        index < final(counted).colors@.len(),
        final(counted).colors@[index as int] == color,
        final(counted).pixels@ == old(counted).pixels@,
        old(counted).colors@.contains(color) ==> final(counted).colors@ == old(counted).colors@,
        old(counted).colors@.contains(color) ==> final(counted).counts@ == old(counted).counts@,
        !old(counted).colors@.contains(color) ==> final(counted).colors@
            == old(counted).colors@.push(color),
        !old(counted).colors@.contains(color) ==> final(counted).counts@
            == old(counted).counts@.push(0),
        final(counted).well_formed(),
{
}

/// Counting a pixel adds one to the count of its color, and the pixel to the
/// pixels.
pub proof fn a_pixel_counts_once(counted: &mut Counted, index: u32)
    requires
        call_ensures(Counted::count_pixel, (counted, index), ()),
        index < old(counted).counts@.len(),
        old(counted).counts@[index as int] < u32::MAX,
    ensures
        final(counted).colors@ == old(counted).colors@,
        final(counted).counts@.len() == old(counted).counts@.len(),
        forall|k: int|
            0 <= k < old(counted).counts@.len() ==> #[trigger] final(counted).counts@[k]
                == old(counted).counts@[k] + if k == index {
                1int
            } else {
                0
            },
        final(counted).pixels@ == old(counted).pixels@.push(index),
{
}

/// A cleared table has 4096 free slots and no colors.
pub proof fn a_cleared_table_is_empty(counted: &mut Counted)
    requires
        call_ensures(Counted::clear, (counted,), ()),
    ensures
        final(counted).slots@ == Seq::new(4096, |i: int| 0u32),
        final(counted).colors@.len() == 0,
        final(counted).counts@.len() == 0,
        final(counted).pixels@.len() == 0,
        final(counted).well_formed(),
{
}

/// Every pixel takes what was found for its color.
pub proof fn found_indices_are_spread(
    pixels: &Vec<u32>,
    found: &Vec<u8>,
    indices: &mut Vec<u8>,
    i: int,
)
    requires
        call_ensures(crate::quantize::spread_indices, (pixels, found, indices), ()),
        0 <= i < pixels@.len(),
    ensures
        final(indices)@.len() == pixels@.len(),
        final(indices)@[i] == found@[pixels@[i] as int],
{
}

} // verus!
