//! The encoder.

use crate::bands::encode_indexed_to_sixel;
use crate::image::OPAQUE_ALPHA;
use crate::palette::{count_opaque_colors, index_exact_colors};
use crate::quantize::{quantize_counted_colors, quantize_transparent};
use crate::quantizer::{default_ditherer, kind_of, quantize_image, wu_method, MethodKind};
use crate::scratch::Scratch;
use crate::types::{
    validate_encode_dimensions, BackgroundMode, Header, PixelAspectRatio, Rgb, SixelError,
};
use quantette::dither::FloydSteinberg;
use quantette::QuantizeMethod;
use vstd::prelude::*;

verus! {

/// Options for the quantette-based SIXEL encoder.
#[derive(Debug)]
pub struct EncodeOptions {
    /// Maximum number of colors in the palette (2-256).
    /// Fewer colors = smaller SIXEL output but less accurate colors.
    pub max_colors: u16,
    /// Floyd-Steinberg error diffusion, or `None` for no dithering.
    ///
    /// The strength of the ditherer controls how much quantization error is
    /// spread to neighboring pixels:
    /// - **0.875**: Default (7/8), best for photographs with smooth gradients
    /// - **0.5**: Reduced dithering, less noise, good for graphics
    /// - `None`: No dithering, sharp edges but may show color banding
    ///
    /// Higher strengths produce smoother gradients but may introduce noise.
    /// Lower strengths preserve sharp edges but may show color banding.
    pub diffusion: Option<FloydSteinberg>,
    /// Color quantization method.
    ///
    /// Available methods:
    /// - [`QuantizeMethod::Wu`]: Wu's color quantizer (default, fast and high quality)
    /// - [`QuantizeMethod::Kmeans`]: K-means clustering (slower but may be more accurate)
    ///
    /// For most use cases, Wu's method provides excellent results.
    pub quantize_method: QuantizeMethod,
}

impl EncodeOptions {
    /// Whether these are the default options: 256 colors, a diffusion of seven
    /// eighths, and Wu's method.
    pub open spec fn is_default(self) -> bool {
        &&& self.max_colors == 256
        &&& self.diffusion matches Some(ditherer) && crate::quantizer::diffusion_strength(ditherer)
            == crate::quantizer::oklab_quotient(
            crate::quantizer::oklab_level(7),
            crate::quantizer::oklab_level(8),
        )
        &&& crate::quantizer::method_kind(self.quantize_method) == MethodKind::Wu
    }
}

impl Clone for EncodeOptions {
    fn clone(&self) -> (copy: Self)
        ensures
            copy == *self,
    {
        EncodeOptions {
            max_colors: self.max_colors,
            diffusion: self.diffusion,
            quantize_method: self.quantize_method.clone(),
        }
    }
}

impl Default for EncodeOptions {
    /// The default options. There are no others.
    fn default() -> (options: Self)
        ensures
            options.is_default(),
            forall|other: EncodeOptions| #[trigger] other.is_default() ==> other == options,
    {
        EncodeOptions {
            max_colors: 256,
            diffusion: Some(default_ditherer()),
            quantize_method: wu_method(),
        }
    }
}

/// The number of colors that the palette may have.
pub open spec fn palette_size(max_colors: u16) -> u16 {
    if max_colors < 2 {
        2
    } else if max_colors > 256 {
        256
    } else {
        max_colors
    }
}

/// An image whose pixels are palette indices, or `None` where they are
/// transparent.
pub struct Indexed {
    pub palette: Seq<Rgb>,
    pub cells: Seq<Option<u8>>,
}

impl Indexed {
    /// Whether the image has `count` pixels, each with the index of a color of
    /// the palette, which has at most 256.
    pub open spec fn well_formed(self, count: int) -> bool {
        &&& self.cells.len() == count
        &&& self.palette.len() <= 256
        &&& forall|i: int|
            0 <= i < self.cells.len() ==> (#[trigger] self.cells[i] matches Some(index) ==> index
                < self.palette.len())
    }
}

/// The image with the colors of its opaque pixels as the palette.
pub open spec fn exact_image(rgba: Seq<u8>) -> Indexed {
    Indexed {
        palette: crate::image::distinct_colors(rgba, crate::image::pixel_count(rgba)),
        cells: Seq::new(
            crate::image::pixel_count(rgba),
            |i: int|
                if crate::image::is_visible(rgba, i) {
                    Some(crate::palette::color_index(rgba, i) as u8)
                } else {
                    None
                },
        ),
    }
}

/// The number of pixels of each distinct color of the image.
pub open spec fn color_counts(rgba: Seq<u8>) -> Seq<u32> {
    let colors = crate::image::distinct_colors(rgba, crate::image::pixel_count(rgba));
    Seq::new(
        colors.len(),
        |k: int|
            crate::image::occurrences(rgba, crate::image::pixel_count(rgba), colors[k]) as u32,
    )
}

/// The place of the color of each pixel among the distinct colors of the image.
pub open spec fn color_indices(rgba: Seq<u8>) -> Seq<u32> {
    Seq::new(
        crate::image::pixel_count(rgba),
        |i: int| crate::palette::color_index(rgba, i) as u32,
    )
}

/// An opaque image after Wu's quantizer, without dithering.
pub open spec fn counted_image(rgba: Seq<u8>, size: u16) -> Indexed {
    let colors = crate::image::distinct_colors(rgba, crate::image::pixel_count(rgba));
    Indexed {
        palette: crate::quantize::counted_palette(colors, color_counts(rgba), size),
        cells: crate::image::visible_cells(
            rgba,
            crate::quantize::counted_indices(
                colors,
                color_counts(rgba),
                color_indices(rgba),
                size,
            ),
        ),
    }
}

/// An image with transparent pixels after quantization.
pub open spec fn masked_image(
    rgba: Seq<u8>,
    width: int,
    method: QuantizeMethod,
    size: u16,
    diffusion: Option<FloydSteinberg>,
) -> Indexed {
    let opaque = crate::image::visible_colors(rgba, crate::image::pixel_count(rgba));
    if opaque.len() == 0 {
        Indexed {
            palette: Seq::empty(),
            cells: crate::image::visible_cells(rgba, Seq::empty()),
        }
    } else {
        let palette = crate::quantizer::trained_palette(method, size, opaque);
        Indexed {
            palette: crate::quantize::in_srgb(palette),
            cells: crate::image::visible_cells(
                rgba,
                crate::dither::mapped_indices(
                    crate::quantize::in_oklab(crate::image::colors_of(rgba)),
                    Seq::new(
                        crate::image::pixel_count(rgba),
                        |i: int| crate::image::is_visible(rgba, i),
                    ),
                    width,
                    palette,
                    diffusion,
                    Seq::new(crate::image::pixel_count(rgba), |i: int| 0u8),
                ),
            ),
        }
    }
}

/// An opaque image after quantization.
pub open spec fn opaque_image(
    rgba: Seq<u8>,
    width: int,
    height: int,
    method: QuantizeMethod,
    size: u16,
    diffusion: Option<FloydSteinberg>,
) -> Indexed {
    let dedup = if diffusion is None {
        Some(true)
    } else {
        None
    };
    let image = crate::quantizer::quantized_image(
        method,
        size,
        diffusion,
        dedup,
        width as u32,
        height as u32,
        crate::image::colors_of(rgba),
    );
    Indexed { palette: image.0, cells: crate::image::visible_cells(rgba, image.1) }
}

/// The image that the encoder writes as SIXEL.
///
/// The colors of the image are the palette if the encoder is to keep them and
/// they fit. Otherwise the quantizer picks a palette, from the opaque pixels
/// alone.
pub open spec fn indexed_image(
    options: EncodeOptions,
    exact_palette: bool,
    rgba: Seq<u8>,
    width: int,
    height: int,
) -> Indexed {
    let size = palette_size(options.max_colors);
    let colors = crate::image::distinct_colors(rgba, crate::image::pixel_count(rgba));
    if exact_palette && colors.len() <= size {
        exact_image(rgba)
    } else if !crate::image::all_visible(rgba) {
        masked_image(rgba, width, options.quantize_method, size, options.diffusion)
    } else if options.diffusion is None && crate::quantizer::method_kind(options.quantize_method)
        == MethodKind::Wu {
        counted_image(rgba, size)
    } else {
        opaque_image(rgba, width, height, options.quantize_method, size, options.diffusion)
    }
}

/// Whether the palette of an image is within the size that the options say, or
/// was brought by the caller.
pub open spec fn within_size(options: EncodeOptions, image: Indexed) -> bool {
    crate::quantizer::method_kind(options.quantize_method) == MethodKind::CustomPalette
        || image.palette.len() <= palette_size(options.max_colors)
}

/// Whether a terminal that reads the SIXEL of an image shows the image, in no
/// more colors than the options say.
pub open spec fn is_faithful(options: EncodeOptions, image: Indexed, header: Header) -> bool {
    &&& image.well_formed(header.width * header.height)
    &&& within_size(options, image)
    &&& crate::terminal::displays(
        crate::bands::sixel_of(image.palette, image.cells, header),
        image.palette,
        image.cells,
        header,
    )
}

/// What is wrong with an image of `len` bytes, if anything.
pub open spec fn encode_error(len: nat, width: int, height: int) -> Option<SixelError> {
    match crate::types::dimension_error(width, height) {
        Some(error) => Some(error),
        None => if len != width * height * 4 {
            Some(
                SixelError::BufferSizeMismatch {
                    expected: (width * height * 4) as usize,
                    actual: len as usize,
                },
            )
        } else {
            None
        },
    }
}

/// Whether the buffers hold the image `image` of the pixels `rgba`.
spec fn holds_image(scratch: Scratch, rgba: Seq<u8>, image: Indexed) -> bool {
    &&& scratch.palette@ == image.palette
    &&& crate::image::visible_cells(rgba, scratch.indices@) == image.cells
    &&& crate::image::shows(scratch.opacity_mask@, rgba)
    &&& scratch.palette@.len() <= 256
    &&& forall|i: int|
        0 <= i < crate::image::pixel_count(rgba) && #[trigger] crate::image::is_visible(rgba, i)
            ==> i < scratch.indices@.len() && scratch.indices@[i] < scratch.palette@.len()
}

/// The number of colors that the palette may have.
fn clamp_colors(max_colors: u16) -> (size: u16)
    ensures
        size == palette_size(max_colors),
{
    if max_colors < 2 {
        2
    } else if max_colors > 256 {
        256
    } else {
        max_colors
    }
}

/// Whether an opaque image goes to the quantizer by its distinct colors: with
/// Wu's method and without dithering.
pub fn goes_by_colors(kind: MethodKind, diffusion: Option<FloydSteinberg>) -> (counts: bool)
    ensures
        counts == (kind == MethodKind::Wu && diffusion is None),
{
    match kind {
        MethodKind::Wu => diffusion.is_none(),
        _ => false,
    }
}

/// Fill `scratch.opacity_mask` and `scratch.rgb_pixels`, in a single pass over
/// `rgba`. Returns whether every pixel is opaque.
fn read_pixels(rgba: &[u8], scratch: &mut Scratch) -> (opaque: bool)
    ensures
        opaque == crate::image::all_visible(rgba@),
        crate::image::shows(final(scratch).opacity_mask@, rgba@),
        final(scratch).rgb_pixels@ == crate::image::colors_of(rgba@),
{
    let count: usize = rgba.len() / 4;
    scratch.opacity_mask.reset(count);
    scratch.rgb_pixels.clear();
    let mut opaque: bool = true;
    let mut i: usize = 0;
    while i < count
        invariant
            i <= count,
            count == rgba@.len() / 4,
            rgba@.len() <= usize::MAX,
            count <= scratch.opacity_mask@.len(),
            scratch.rgb_pixels@.len() == i,
            opaque == (forall|j: int| 0 <= j < i ==> #[trigger] crate::image::is_visible(rgba@, j)),
            forall|j: int|
                0 <= j < scratch.opacity_mask@.len() ==> #[trigger] scratch.opacity_mask@[j] == (j
                    < i && crate::image::is_visible(rgba@, j)),
            forall|j: int|
                0 <= j < i ==> #[trigger] scratch.rgb_pixels@[j] == crate::image::color_at(
                    rgba@,
                    j,
                ),
        decreases count - i,
    {
        if rgba[4 * i + 3] >= OPAQUE_ALPHA {
            assert(crate::image::is_visible(rgba@, i as int));
            scratch.opacity_mask.set(i);
        } else {
            assert(!crate::image::is_visible(rgba@, i as int));
            opaque = false;
        }
        scratch.rgb_pixels.push(Rgb { r: rgba[4 * i], g: rgba[4 * i + 1], b: rgba[4 * i + 2] });
        i += 1;
    }
    assert(scratch.rgb_pixels@ =~= crate::image::colors_of(rgba@));
    opaque
}

/// The opaque pixels are the same by the mask as by the bytes.
proof fn masked_colors_are_visible(mask: Seq<bool>, rgba: Seq<u8>, count: nat)
    requires
        crate::image::shows(mask, rgba),
        count <= crate::image::pixel_count(rgba),
    ensures
        crate::quantize::opaque_colors(crate::image::colors_of(rgba), mask, count)
            == crate::image::visible_colors(rgba, count),
    decreases count,
{
    if count > 0 {
        masked_colors_are_visible(mask, rgba, (count - 1) as nat);
        assert(mask[count - 1] == crate::image::is_visible(rgba, count - 1));
    }
}

/// Find the palette and the indices of an image with transparent pixels, whose
/// pixels `scratch` holds.
fn index_transparent(
    options: &EncodeOptions,
    size: u16,
    rgba: &[u8],
    width: usize,
    scratch: &mut Scratch,
) -> (result: Result<(), SixelError>)
    requires
        size == palette_size(options.max_colors),
        0 < width,
        width + 2 <= usize::MAX,
        crate::image::pixel_count(rgba@) <= u32::MAX,
        crate::image::shows(old(scratch).opacity_mask@, rgba@),
        old(scratch).rgb_pixels@ == crate::image::colors_of(rgba@),
    ensures
        result is Ok,
        holds_image(
            *final(scratch),
            rgba@,
            masked_image(
                rgba@,
                width as int,
                options.quantize_method,
                size,
                options.diffusion,
            ),
        ),
        within_size(
            *options,
            masked_image(
                rgba@,
                width as int,
                options.quantize_method,
                size,
                options.diffusion,
            ),
        ),
{
    let ghost mask = scratch.opacity_mask@;
    let ghost pixels = scratch.rgb_pixels@;
    let ghost count = crate::image::pixel_count(rgba@);
    proof {
        masked_colors_are_visible(mask, rgba@, count);
        crate::quantize::opaque_colors_count(pixels, mask, count);
    }
    let result = quantize_transparent(
        scratch,
        width,
        &options.quantize_method,
        size,
        options.diffusion,
    );
    proof {
        let opaque = crate::image::visible_colors(rgba@, count);
        if opaque.len() == 0 {
            assert forall|i: int| 0 <= i < count implies !(#[trigger] crate::image::is_visible(
                rgba@,
                i,
            )) by {
                assert(!mask[i]);
            }
            assert(scratch.indices@ =~= Seq::<u8>::empty());
        } else {
            let seen = Seq::new(count, |i: int| crate::image::is_visible(rgba@, i));
            assert forall|i: int| 0 <= i < count implies #[trigger] mask[i] == seen[i] by {}
            crate::dither::hidden_colors_do_not_matter(
                crate::quantize::in_oklab(pixels),
                mask,
                crate::quantize::in_oklab(pixels),
                seen,
                width as int,
                crate::quantizer::trained_palette(options.quantize_method, size, opaque),
                options.diffusion,
                Seq::new(count, |i: int| 0u8),
            );
        }
    }
    result
}

/// Find the palette and the indices of an opaque image, whose pixels `scratch`
/// holds.
fn index_opaque(
    options: &EncodeOptions,
    size: u16,
    rgba: &[u8],
    width: u32,
    height: u32,
    scratch: &mut Scratch,
) -> (result: Result<(), SixelError>)
    requires
        size == palette_size(options.max_colors),
        0 < crate::image::pixel_count(rgba@) == width * height <= u32::MAX,
        crate::image::all_visible(rgba@),
        crate::image::shows(old(scratch).opacity_mask@, rgba@),
        old(scratch).rgb_pixels@ == crate::image::colors_of(rgba@),
    ensures
        result is Ok,
        holds_image(
            *final(scratch),
            rgba@,
            opaque_image(
                rgba@,
                width as int,
                height as int,
                options.quantize_method,
                size,
                options.diffusion,
            ),
        ),
        within_size(
            *options,
            opaque_image(
                rgba@,
                width as int,
                height as int,
                options.quantize_method,
                size,
                options.diffusion,
            ),
        ),
{
    // Without dithering, quantette dedups the pixels by itself only for a large
    // image. A drawing repeats few colors, so the dedup costs less than the
    // conversion of every pixel to Oklab that it saves.
    let dedup: Option<bool> = if options.diffusion.is_none() {
        Some(true)
    } else {
        None
    };
    match quantize_image(
        &options.quantize_method,
        size,
        options.diffusion,
        dedup,
        width,
        height,
        &scratch.rgb_pixels,
    ) {
        Ok((palette, indices)) => {
            scratch.palette = palette;
            scratch.indices = indices;
            Ok(())
        },
        Err(message) => Err(SixelError::Quantization(message)),
    }
}

/// Find the palette and the indices of an image.
fn index_image(
    options: &EncodeOptions,
    exact_palette: bool,
    rgba: &[u8],
    width: usize,
    height: usize,
    scratch: &mut Scratch,
) -> (result: Result<(), SixelError>)
    requires
        0 < crate::image::pixel_count(rgba@) == width * height <= u32::MAX,
        0 < width <= u32::MAX,
        0 < height <= u32::MAX,
        width + 2 <= usize::MAX,
    ensures
        result is Ok,
        holds_image(
            *final(scratch),
            rgba@,
            indexed_image(*options, exact_palette, rgba@, width as int, height as int),
        ),
        within_size(
            *options,
            indexed_image(*options, exact_palette, rgba@, width as int, height as int),
        ),
{
    let size: u16 = clamp_colors(options.max_colors);
    if exact_palette && index_exact_colors(rgba, size as usize, scratch) {
        assert(crate::image::visible_cells(rgba@, scratch.indices@) =~= exact_image(rgba@).cells);
        return Ok(());
    }
    let by_colors: bool = goes_by_colors(kind_of(&options.quantize_method), options.diffusion);
    if by_colors && count_opaque_colors(rgba, scratch) {
        let ghost counted = scratch.counted;
        proof {
            assert(counted.counts@ =~= color_counts(rgba@));
            assert(counted.pixels@ =~= color_indices(rgba@));
        }
        quantize_counted_colors(scratch, size);
        return Ok(());
    }
    if read_pixels(rgba, scratch) {
        index_opaque(options, size, rgba, width as u32, height as u32, scratch)
    } else {
        index_transparent(options, size, rgba, width, scratch)
    }
}

/// The characters of ASCII bytes.
pub open spec fn ascii_text(bytes: Seq<u8>) -> Seq<char> {
    bytes.map_values(|byte: u8| byte as char)
}

/// `String::from_utf8` of ASCII bytes, which are UTF-8 and stand for one
/// character each.
#[verifier::external_body]
fn ascii_string(bytes: Vec<u8>) -> (text: String)
    requires
        crate::ascii::is_ascii(bytes@),
    ensures
        text@ == ascii_text(bytes@),
{
    String::from_utf8(bytes).expect("the encoder writes ASCII")
}

/// An encoder that reuses its buffers from one image to the next.
///
/// [`sixel_encode`] allocates the scratch buffers and the output string on every
/// call. A program that encodes a stream of frames, such as a terminal animation
/// or a video player, keeps one `SixelEncoder` and calls
/// [`encode_into`](Self::encode_into) with a byte buffer it owns, so that
/// consecutive frames share their buffers. The bytes go to the terminal as they
/// are.
#[derive(Clone, Debug)]
pub struct SixelEncoder {
    options: EncodeOptions,
    exact_palette: bool,
    aspect_ratio: PixelAspectRatio,
    background_mode: BackgroundMode,
    scratch: Scratch,
}

impl Default for SixelEncoder {
    /// An encoder with the default options.
    fn default() -> (encoder: Self)
        ensures
            encoder.options().is_default(),
            !encoder.exact_palette(),
            encoder.aspect_ratio() == PixelAspectRatio::Square,
            encoder.background_mode() == BackgroundMode::Transparent,
    {
        SixelEncoder {
            options: EncodeOptions::default(),
            exact_palette: false,
            aspect_ratio: PixelAspectRatio::default(),
            background_mode: BackgroundMode::default(),
            scratch: Scratch::default(),
        }
    }
}

impl SixelEncoder {
    /// The encoding options.
    pub closed spec fn options(self) -> EncodeOptions {
        self.options
    }

    /// Whether the colors of an image are its palette when they fit.
    pub closed spec fn exact_palette(self) -> bool {
        self.exact_palette
    }

    /// The pixel aspect ratio that the encoder announces.
    pub closed spec fn aspect_ratio(self) -> PixelAspectRatio {
        self.aspect_ratio
    }

    /// The background mode that the encoder announces.
    pub closed spec fn background_mode(self) -> BackgroundMode {
        self.background_mode
    }

    /// What the encoder announces of an image.
    pub open spec fn header(self, width: usize, height: usize) -> Header {
        Header {
            width,
            height,
            aspect_ratio: self.aspect_ratio(),
            background_mode: self.background_mode(),
        }
    }

    /// The palette and the pixels that the encoder gives an image.
    pub open spec fn indexed(self, rgba: Seq<u8>, width: usize, height: usize) -> Indexed {
        indexed_image(
            self.options(),
            self.exact_palette(),
            rgba,
            width as int,
            height as int,
        )
    }

    /// The SIXEL of an image.
    pub open spec fn encoded(self, rgba: Seq<u8>, width: usize, height: usize) -> Seq<u8> {
        let image = self.indexed(rgba, width, height);
        crate::bands::sixel_of(image.palette, image.cells, self.header(width, height))
    }

    /// Whether two encoders are set up alike. What their buffers hold is left out.
    pub open spec fn same_settings(self, other: Self) -> bool {
        &&& self.options() == other.options()
        &&& self.exact_palette() == other.exact_palette()
        &&& self.aspect_ratio() == other.aspect_ratio()
        &&& self.background_mode() == other.background_mode()
    }

    /// Create an encoder with the default options.
    pub fn new() -> (encoder: Self)
        ensures
            encoder.options().is_default(),
            !encoder.exact_palette(),
            encoder.aspect_ratio() == PixelAspectRatio::Square,
            encoder.background_mode() == BackgroundMode::Transparent,
    {
        Self::default()
    }

    /// Set the encoding options.
    #[must_use]
    pub fn with_options(self, options: EncodeOptions) -> (encoder: Self)
        ensures
            encoder.options() == options,
            encoder.exact_palette() == self.exact_palette(),
            encoder.aspect_ratio() == self.aspect_ratio(),
            encoder.background_mode() == self.background_mode(),
    {
        let mut encoder = self;
        encoder.options = options;
        encoder
    }

    /// Use the colors of the image as the palette when they fit in
    /// `max_colors`, and quantize only an image with more colors.
    ///
    /// The quantizer merges colors that are close together, so a drawing of
    /// 21 flat colors can come back with 8. An exact palette keeps every
    /// color and can make the output longer, since the SIXEL has one run per
    /// color used in each band. Off by default.
    #[must_use]
    pub fn with_exact_palette(self, exact_palette: bool) -> (encoder: Self)
        ensures
            encoder.options() == self.options(),
            encoder.exact_palette() == exact_palette,
            encoder.aspect_ratio() == self.aspect_ratio(),
            encoder.background_mode() == self.background_mode(),
    {
        let mut encoder = self;
        encoder.exact_palette = exact_palette;
        encoder
    }

    /// Set the pixel aspect ratio the DCS introducer and the raster attributes announce.
    #[must_use]
    pub fn with_aspect_ratio(self, aspect_ratio: PixelAspectRatio) -> (encoder: Self)
        ensures
            encoder.options() == self.options(),
            encoder.exact_palette() == self.exact_palette(),
            encoder.aspect_ratio() == aspect_ratio,
            encoder.background_mode() == self.background_mode(),
    {
        let mut encoder = self;
        encoder.aspect_ratio = aspect_ratio;
        encoder
    }

    /// Set the background mode the DCS introducer announces.
    #[must_use]
    pub fn with_background_mode(self, background_mode: BackgroundMode) -> (encoder: Self)
        ensures
            encoder.options() == self.options(),
            encoder.exact_palette() == self.exact_palette(),
            encoder.aspect_ratio() == self.aspect_ratio(),
            encoder.background_mode() == background_mode,
    {
        let mut encoder = self;
        encoder.background_mode = background_mode;
        encoder
    }

    /// Encode RGBA image data and append the SIXEL to `out`.
    ///
    /// `rgba` holds 4 bytes per pixel and `width` by `height` pixels. A pixel
    /// with alpha below 128 is transparent, as in [`sixel_encode`]. An error
    /// leaves `out` with the contents it had.
    ///
    /// A terminal that reads the SIXEL shows the image, in at most `max_colors`
    /// colors unless the method brings its own palette.
    pub fn encode_into(
        &mut self,
        rgba: &[u8],
        width: usize,
        height: usize,
        out: &mut Vec<u8>,
    ) -> (result: Result<(), SixelError>)
        ensures
            final(self).same_settings(*old(self)),
            match encode_error(rgba@.len(), width as int, height as int) {
                Some(error) => {
                    &&& result == Err::<(), SixelError>(error)
                    &&& final(out)@ == old(out)@
                },
                None => {
                    &&& result == Ok::<(), SixelError>(())
                    &&& final(out)@ == old(out)@ + old(self).encoded(rgba@, width, height)
                    &&& is_faithful(
                        old(self).options(),
                        old(self).indexed(rgba@, width, height),
                        old(self).header(width, height),
                    )
                },
            },
    {
        if let Err(error) = validate_encode_dimensions(width, height) {
            return Err(error);
        }
        proof {
            assert(width * height >= width) by (nonlinear_arith)
                requires
                    height >= 1,
            ;
            assert(width * height >= height) by (nonlinear_arith)
                requires
                    width >= 1,
            ;
        }
        let expected: usize = width * height * 4;
        if rgba.len() != expected {
            return Err(SixelError::BufferSizeMismatch { expected, actual: rgba.len() });
        }
        let header = Header {
            width,
            height,
            aspect_ratio: self.aspect_ratio,
            background_mode: self.background_mode,
        };
        if let Err(error) = index_image(
            &self.options,
            self.exact_palette,
            rgba,
            width,
            height,
            &mut self.scratch,
        ) {
            return Err(error);
        }
        proof {
            crate::image::shown_cells(
                self.scratch.opacity_mask@,
                rgba@,
                self.scratch.indices@,
            );
            let image = old(self).indexed(rgba@, width, height);
            assert forall|i: int| 0 <= i < image.cells.len() implies (#[trigger] image.cells[i]
                matches Some(index) ==> index < image.palette.len()) by {
                assert(image.cells[i] == crate::image::visible_cells(
                    rgba@,
                    self.scratch.indices@,
                )[i]);
            }
            crate::terminal::a_terminal_shows_the_image(image.palette, image.cells, header);
            let colors = self.scratch.palette@.len();
            assert(colors * width <= 256 * 1_000_000) by (nonlinear_arith)
                requires
                    colors <= 256,
                    width <= 1_000_000,
            ;
        }
        encode_indexed_to_sixel(
            self.scratch.palette.as_slice(),
            self.scratch.indices.as_slice(),
            &self.scratch.opacity_mask,
            header,
            &mut self.scratch.bands,
            out,
        );
        Ok(())
    }
}

/// What [`sixel_encode`] returns.
pub open spec fn encode_result(
    rgba: Seq<u8>,
    width: usize,
    height: usize,
    options: EncodeOptions,
    aspect_ratio: PixelAspectRatio,
    background_mode: BackgroundMode,
) -> Result<Seq<char>, SixelError> {
    match encode_error(rgba.len(), width as int, height as int) {
        Some(error) => Err(error),
        None => {
            let image = indexed_image(options, false, rgba, width as int, height as int);
            Ok(
                ascii_text(
                    crate::bands::sixel_of(
                        image.palette,
                        image.cells,
                        Header { width, height, aspect_ratio, background_mode },
                    ),
                ),
            )
        },
    }
}

/// Whether a result is the text or the error that `expected` says.
pub open spec fn returns_text(
    result: Result<String, SixelError>,
    expected: Result<Seq<char>, SixelError>,
) -> bool {
    match expected {
        Ok(text) => result matches Ok(string) && string@ == text,
        Err(error) => result == Err::<String, SixelError>(error),
    }
}

/// Encode RGBA image data into a SIXEL string using quantette.
///
/// # Arguments
/// * `rgba` - Raw RGBA pixel data (4 bytes per pixel: R, G, B, A)
/// * `width` - Image width in pixels
/// * `height` - Image height in pixels
/// * `opts` - Encoding options
///
/// # Returns
/// A SIXEL-encoded string that can be displayed on compatible terminals.
/// Pixels with alpha < 128 are transparent and preserved using SIXEL's P2=1 mode.
/// Their RGB values do not affect the palette or error diffusion.
#[must_use]
pub fn sixel_encode(rgba: &[u8], width: usize, height: usize, opts: &EncodeOptions) -> (result:
    Result<String, SixelError>)
    ensures
        returns_text(
            result,
            encode_result(
                rgba@,
                width,
                height,
                *opts,
                PixelAspectRatio::Square,
                BackgroundMode::Transparent,
            ),
        ),
        result is Ok ==> is_faithful(
            *opts,
            indexed_image(*opts, false, rgba@, width as int, height as int),
            (Header {
                width,
                height,
                aspect_ratio: PixelAspectRatio::Square,
                background_mode: BackgroundMode::Transparent,
            }),
        ),
{
    sixel_encode_impl(
        rgba,
        width,
        height,
        opts,
        PixelAspectRatio::default(),
        BackgroundMode::default(),
    )
}

/// Encode RGBA image data with a pixel aspect ratio and a background mode.
pub fn sixel_encode_impl(
    rgba: &[u8],
    width: usize,
    height: usize,
    opts: &EncodeOptions,
    pixel_aspect_ratio: PixelAspectRatio,
    background_mode: BackgroundMode,
) -> (result: Result<String, SixelError>)
    ensures
        returns_text(
            result,
            encode_result(rgba@, width, height, *opts, pixel_aspect_ratio, background_mode),
        ),
        result is Ok ==> is_faithful(
            *opts,
            indexed_image(*opts, false, rgba@, width as int, height as int),
            (Header { width, height, aspect_ratio: pixel_aspect_ratio, background_mode }),
        ),
{
    let mut encoder = SixelEncoder::new().with_options(opts.clone()).with_aspect_ratio(
        pixel_aspect_ratio,
    ).with_background_mode(background_mode);
    let mut out: Vec<u8> = Vec::new();
    if let Err(error) = encoder.encode_into(rgba, width, height, &mut out) {
        return Err(error);
    }
    proof {
        let image = indexed_image(*opts, false, rgba@, width as int, height as int);
        let header = Header { width, height, aspect_ratio: pixel_aspect_ratio, background_mode };
        let sixel = crate::bands::sixel_of(image.palette, image.cells, header);
        assert(out@ =~= sixel);
        crate::ascii::sixel_is_ascii(image.palette, image.cells, header);
    }
    Ok(ascii_string(out))
}

/// Encode RGBA with default options.
#[inline]
#[must_use]
pub fn sixel_encode_default(rgba: &[u8], width: usize, height: usize) -> (result: Result<
    String,
    SixelError,
>)
    ensures
        exists|options: EncodeOptions| #[trigger] options.is_default(),
        forall|options: EncodeOptions| #[trigger]
            options.is_default() ==> returns_text(
                result,
                encode_result(
                    rgba@,
                    width,
                    height,
                    options,
                    PixelAspectRatio::Square,
                    BackgroundMode::Transparent,
                ),
            ) && (result is Ok ==> is_faithful(
                options,
                indexed_image(options, false, rgba@, width as int, height as int),
                (Header {
                    width,
                    height,
                    aspect_ratio: PixelAspectRatio::Square,
                    background_mode: BackgroundMode::Transparent,
                }),
            )),
{
    let options: EncodeOptions = EncodeOptions::default();
    assert(options.is_default());
    sixel_encode(rgba, width, height, &options)
}

} // verus!
