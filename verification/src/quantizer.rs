//! The color quantizer: what the encoder takes from `quantette`, and from the
//! color types of `palette` that `quantette` hands out.
//!
//! Nothing here is proved. Each function makes one outside call, and its
//! contract is what the rest of the crate believes of that call. What takes
//! pages to say has a name, a function of the arguments alone.

use crate::types::Rgb;
use quantette::color_map::{IndexedColorMap, NearestNeighborColorMap};
use quantette::color_space::{oklab_to_srgb8, srgb8_to_oklab};
use quantette::deps::palette::{Mix, Oklab, Srgb};
use quantette::dither::FloydSteinberg;
use quantette::wu::{BinnerF32x3, WuF32x3};
use quantette::{ImageRef, PaletteBuf, PaletteCounts, PaletteSize, Pipeline, QuantizeMethod};
use vstd::prelude::*;

verus! {

/// The strength of Floyd-Steinberg error diffusion, above 0 and up to 1.
#[verifier::external_type_specification]
#[verifier::external_body]
pub struct ExFloydSteinberg(FloydSteinberg);

/// A color quantization method with its settings.
#[verifier::external_type_specification]
#[verifier::external_body]
pub struct ExQuantizeMethod(QuantizeMethod);

/// A color in the Oklab color space, or a difference of two.
#[verifier::external_type_specification]
#[verifier::external_body]
#[verifier::reject_recursive_types(T)]
pub struct ExOklab<T>(Oklab<T>);

/// A palette with a search for the color nearest to a given one.
#[verifier::external_type_specification]
#[verifier::external_body]
#[verifier::reject_recursive_types(Color)]
#[verifier::reject_recursive_types(Component)]
pub struct ExNearestNeighborColorMap<Color, Component, const N: usize>(
    NearestNeighborColorMap<Color, Component, N>,
);

/// The error of a conversion that `Oklab` implements and nothing here calls.
#[verifier::external_type_specification]
#[verifier::external_body]
pub struct ExTryFromSliceError(core::array::TryFromSliceError);

/// A palette of Oklab colors with a search for the nearest one.
pub type ColorMap = NearestNeighborColorMap<Oklab, <Oklab as Mix>::Scalar, 3>;

/// The kinds of quantization method.
#[derive(Clone, Copy, Debug, PartialEq, Eq, Structural)]
pub enum MethodKind {
    /// Wu's color quantizer.
    Wu,
    /// K-means clustering.
    Kmeans,
    /// A palette that the caller brings.
    CustomPalette,
}

/// The kind of a quantization method.
pub uninterp spec fn method_kind(method: QuantizeMethod) -> MethodKind;

/// Tells the variants of `quantette::QuantizeMethod` apart.
#[verifier::external_body]
pub(crate) fn kind_of(method: &QuantizeMethod) -> (kind: MethodKind)
    ensures
        kind == method_kind(*method),
{
    match method {
        QuantizeMethod::Wu => MethodKind::Wu,
        QuantizeMethod::Kmeans(_) => MethodKind::Kmeans,
        QuantizeMethod::CustomPalette(_) => MethodKind::CustomPalette,
    }
}

/// The variant `quantette::QuantizeMethod::Wu`, which has no settings, so that
/// there is one method of this kind.
#[verifier::external_body]
pub(crate) fn wu_method() -> (method: QuantizeMethod)
    ensures
        method_kind(method) == MethodKind::Wu,
        forall|other: QuantizeMethod|
            #[trigger] method_kind(other) == MethodKind::Wu ==> other == method,
{
    QuantizeMethod::Wu
}

/// `Clone::clone` of `quantette::QuantizeMethod`, which copies the variant and
/// its settings.
pub assume_specification[ <QuantizeMethod as Clone>::clone ](method: &QuantizeMethod) -> (copy:
    QuantizeMethod)
    ensures
        copy == *method,
;

/// The Oklab color whose three components are all `n`.
pub uninterp spec fn oklab_level(n: u8) -> Oklab;

/// `palette::Oklab::new` of one small number, three times.
#[verifier::external_body]
pub(crate) fn level(n: u8) -> (color: Oklab)
    ensures
        color == oklab_level(n),
{
    Oklab::new(n.into(), n.into(), n.into())
}

/// The sum of two Oklab colors, component by component.
pub uninterp spec fn oklab_sum(a: Oklab, b: Oklab) -> Oklab;

/// The operator `+` of `palette::Oklab`.
#[verifier::external_body]
pub(crate) fn sum(a: Oklab, b: Oklab) -> (color: Oklab)
    ensures
        color == oklab_sum(a, b),
{
    a + b
}

/// The difference of two Oklab colors, component by component.
pub uninterp spec fn oklab_difference(a: Oklab, b: Oklab) -> Oklab;

/// The operator `-` of `palette::Oklab`.
#[verifier::external_body]
pub(crate) fn difference(a: Oklab, b: Oklab) -> (color: Oklab)
    ensures
        color == oklab_difference(a, b),
{
    a - b
}

/// The product of two Oklab colors, component by component.
pub uninterp spec fn oklab_product(a: Oklab, b: Oklab) -> Oklab;

/// The operator `*` of `palette::Oklab`.
#[verifier::external_body]
pub(crate) fn product(a: Oklab, b: Oklab) -> (color: Oklab)
    ensures
        color == oklab_product(a, b),
{
    a * b
}

/// The quotient of two Oklab colors, component by component.
pub uninterp spec fn oklab_quotient(a: Oklab, b: Oklab) -> Oklab;

/// The operator `/` of `palette::Oklab`.
#[verifier::external_body]
pub(crate) fn quotient(a: Oklab, b: Oklab) -> (color: Oklab)
    ensures
        color == oklab_quotient(a, b),
{
    a / b
}

/// The Oklab color whose three components are all the strength of `ditherer`.
pub uninterp spec fn diffusion_strength(ditherer: FloydSteinberg) -> Oklab;

/// `quantette::dither::FloydSteinberg::error_diffusion`, in each component.
#[verifier::external_body]
pub(crate) fn strength(ditherer: FloydSteinberg) -> (color: Oklab)
    ensures
        color == diffusion_strength(ditherer),
{
    let strength = ditherer.error_diffusion();
    Oklab::new(strength, strength, strength)
}

/// `quantette::dither::FloydSteinberg::new`, which has a strength of seven
/// eighths. A ditherer is nothing but its strength, so that there is one of this
/// strength.
#[verifier::external_body]
pub(crate) fn default_ditherer() -> (ditherer: FloydSteinberg)
    ensures
        diffusion_strength(ditherer) == oklab_quotient(oklab_level(7), oklab_level(8)),
        forall|other: FloydSteinberg|
            #[trigger] diffusion_strength(other) == diffusion_strength(ditherer) ==> other
                == ditherer,
{
    FloydSteinberg::new()
}

/// An sRGB color in Oklab.
pub uninterp spec fn oklab_of(color: Rgb) -> Oklab;

/// `quantette::color_space::srgb8_to_oklab`, which converts each color by
/// itself.
#[verifier::external_body]
pub(crate) fn to_oklab(colors: &Vec<Rgb>) -> (oklab: Vec<Oklab>)
    ensures
        oklab@ == colors@.map_values(|color: Rgb| oklab_of(color)),
{
    let colors: Vec<Srgb<u8>> = colors.iter().map(|c| Srgb::new(c.r, c.g, c.b)).collect();
    srgb8_to_oklab(&colors)
}

/// An Oklab color in sRGB, clamped into its range.
pub uninterp spec fn srgb_of(color: Oklab) -> Rgb;

/// `quantette::color_space::oklab_to_srgb8`, which converts each color by
/// itself.
#[verifier::external_body]
pub(crate) fn to_srgb(colors: &Vec<Oklab>) -> (srgb: Vec<Rgb>)
    ensures
        srgb@ == colors@.map_values(|color: Oklab| srgb_of(color)),
{
    oklab_to_srgb8(colors).into_iter().map(|c| Rgb { r: c.red, g: c.green, b: c.blue }).collect()
}

/// The colors of a color map.
pub uninterp spec fn map_palette(map: ColorMap) -> Seq<Oklab>;

/// The index of the color of `palette` that is nearest to `color`.
pub uninterp spec fn nearest(palette: Seq<Oklab>, color: Oklab) -> u8;

/// `NearestNeighborColorMap::new` of a `quantette::PaletteBuf`, which holds 1 to
/// 256 colors. The color map holds the colors in their order.
#[verifier::external_body]
pub(crate) fn color_map(palette: Vec<Oklab>) -> (map: ColorMap)
    requires
        0 < palette@.len() <= 256,
    ensures
        map_palette(map) == palette@,
{
    NearestNeighborColorMap::new(PaletteBuf::new(palette).expect("a palette has 1 to 256 colors"))
}

/// `IndexedColorMap::palette_index` of a `NearestNeighborColorMap`. The index is
/// that of a color of the map, and rests on the colors of the map alone.
#[verifier::external_body]
pub(crate) fn nearest_index(map: &ColorMap, color: Oklab) -> (index: u8)
    ensures
        index == nearest(map_palette(*map), color),
        index < map_palette(*map).len(),
{
    map.palette_index(&color)
}

/// `NearestNeighborColorMap::palette`, indexed.
#[verifier::external_body]
pub(crate) fn map_color(map: &ColorMap, index: u8) -> (color: Oklab)
    requires
        index < map_palette(*map).len(),
    ensures
        color == map_palette(*map)[index as int],
{
    map.palette()[index]
}

/// The palette that a quantization method picks for `pixels`.
pub uninterp spec fn trained_palette(
    method: QuantizeMethod,
    size: u16,
    pixels: Seq<Rgb>,
) -> Seq<Oklab>;

/// `Pipeline::output_oklab_palette` of a `quantette::Pipeline` with the palette
/// size `size`, the method `method` and `pixels` as its input slice. It fails on
/// an empty slice and on one of more than `u32::MAX` pixels. A palette has 1 to
/// 256 colors, and no more than `size` of them unless the method brings its own.
#[verifier::external_body]
pub(crate) fn train_palette(method: &QuantizeMethod, size: u16, pixels: &Vec<Rgb>) -> (result:
    Result<Vec<Oklab>, String>)
    requires
        1 <= size <= 256,
    ensures
        result is Ok <==> 0 < pixels@.len() <= u32::MAX,
        result matches Ok(palette) ==> palette@ == trained_palette(*method, size, pixels@),
        result matches Ok(palette) ==> 0 < palette@.len() <= 256,
        result matches Ok(palette) ==> method_kind(*method) == MethodKind::CustomPalette
            || palette@.len() <= size,
{
    let pixels: Vec<Srgb<u8>> = pixels.iter().map(|c| Srgb::new(c.r, c.g, c.b)).collect();
    let pipeline = Pipeline::new()
        .palette_size(PaletteSize::from_u16_clamped(size))
        .quantize_method(method.clone());
    match pipeline.input_slice(&pixels) {
        Ok(input) => Ok(input.output_oklab_palette().into_vec()),
        Err(error) => Err(error.to_string()),
    }
}

/// The palette and the indices of an image after quantization and dithering.
pub uninterp spec fn quantized_image(
    method: QuantizeMethod,
    size: u16,
    ditherer: Option<FloydSteinberg>,
    dedup: Option<bool>,
    width: u32,
    height: u32,
    pixels: Seq<Rgb>,
) -> (Seq<Rgb>, Seq<u8>);

/// `Pipeline::output_srgb8_indexed_image` of a `quantette::Pipeline` with the
/// given settings and the image as its input. It fails on an image whose pixels
/// are not `width` times `height`, and on one of more than `u32::MAX` pixels.
/// Every pixel of the result has the index of a color of its palette, which has
/// 1 to 256 colors, and no more than `size` of them unless the method brings its
/// own. With neither a ditherer nor a choice on `dedup`, the features of the
/// processor would have a say.
#[verifier::external_body]
pub(crate) fn quantize_image(
    method: &QuantizeMethod,
    size: u16,
    ditherer: Option<FloydSteinberg>,
    dedup: Option<bool>,
    width: u32,
    height: u32,
    pixels: &Vec<Rgb>,
) -> (result: Result<(Vec<Rgb>, Vec<u8>), String>)
    requires
        1 <= size <= 256,
        0 < pixels@.len(),
        ditherer is Some || dedup is Some,
    ensures
        result is Ok <==> pixels@.len() == width * height <= u32::MAX,
        result matches Ok(image) ==> (image.0@, image.1@) == quantized_image(
            *method,
            size,
            ditherer,
            dedup,
            width,
            height,
            pixels@,
        ),
        result matches Ok(image) ==> 0 < image.0@.len() <= 256,
        result matches Ok(image) ==> method_kind(*method) == MethodKind::CustomPalette
            || image.0@.len() <= size,
        result matches Ok(image) ==> image.1@.len() == pixels@.len() && forall|i: int|
            0 <= i < image.1@.len() ==> #[trigger] image.1@[i] < image.0@.len(),
{
    let pixels: Vec<Srgb<u8>> = pixels.iter().map(|c| Srgb::new(c.r, c.g, c.b)).collect();
    let image = ImageRef::new(width, height, pixels.as_slice()).map_err(|e| e.to_string())?;
    let pipeline = Pipeline::new()
        .palette_size(PaletteSize::from_u16_clamped(size))
        .quantize_method(method.clone())
        .ditherer(ditherer)
        .dedup(dedup);
    let (palette, indices) = pipeline.input_image(image).output_srgb8_indexed_image().into_parts();
    let palette = palette.into_iter().map(|c| Rgb { r: c.red, g: c.green, b: c.blue }).collect();
    Ok((palette, indices))
}

/// The sum of `counts`.
pub open spec fn total(counts: Seq<u32>) -> nat
    decreases counts.len(),
{
    if counts.len() == 0 {
        0
    } else {
        total(counts.drop_last()) + counts.last() as nat
    }
}

/// The palette that Wu's quantizer picks for colors that occur `counts` times,
/// and the index in it of each color.
pub uninterp spec fn wu_quantized(
    colors: Seq<Oklab>,
    counts: Seq<u32>,
    size: u16,
) -> (Seq<Oklab>, Seq<u8>);

/// `WuF32x3::run_palette_counts` of `quantette::PaletteCounts` over the bins of
/// `BinnerF32x3::oklab_from_srgb8`, with the palette and the indices of its color
/// map of `size` colors. The palette has 1 to `size` colors, and each of `colors`
/// has the index of one of them.
#[verifier::external_body]
pub(crate) fn wu_quantize(colors: Vec<Oklab>, counts: &Vec<u32>, size: u16) -> (result: (
    Vec<Oklab>,
    Vec<u8>,
))
    requires
        1 <= size <= 256,
        colors@.len() == counts@.len(),
        0 < total(counts@) <= u32::MAX,
    ensures
        (result.0@, result.1@) == wu_quantized(colors@, counts@, size),
        0 < result.0@.len() <= size,
        result.1@.len() == colors@.len(),
        forall|i: int| 0 <= i < result.1@.len() ==> #[trigger] result.1@[i] < result.0@.len(),
{
    let counted = PaletteCounts::new(colors, counts.clone()).expect("the counts fit a u32");
    let map = WuF32x3::run_palette_counts(&counted, BinnerF32x3::oklab_from_srgb8())
        .expect("there is a color")
        .color_map(PaletteSize::from_u16_clamped(size));
    let indices = map.map_to_indices(counted.palette());
    (map.into_palette().into_vec(), indices)
}

} // verus!
