//! The parts of the encoder.

use icy_sixel::dither::{map_visible_pixels, Dither};
use icy_sixel::mask::BitMask;
use icy_sixel::palette::count_opaque_colors;
use icy_sixel::quantize::quantize_counted_colors;
use icy_sixel::quantizer::ColorMap;
use icy_sixel::scratch::Scratch;
use icy_sixel::types::Rgb;
use icy_sixel::{sixel_encode, EncodeOptions, FloydSteinberg, SixelEncoder};
use quantette::color_map::NearestNeighborColorMap;
use quantette::deps::palette::{Oklab, Srgb};
use quantette::{ImageRef, PaletteBuf, PaletteSize, Pipeline};

/// The ditherer of a diffusion strength, clamped to 0.0 through 1.0.
fn diffuse(strength: f32) -> Option<FloydSteinberg> {
    let strength = strength.clamp(0.0, 1.0);
    if strength <= 0.0 {
        None
    } else {
        Some(FloydSteinberg::with_error_diffusion(strength).unwrap_or_default())
    }
}

fn opaque(colors: &[[u8; 3]]) -> Vec<u8> {
    colors.iter().flat_map(|&[r, g, b]| [r, g, b, 255]).collect()
}

fn rgb([r, g, b]: [u8; 3]) -> Rgb {
    Rgb { r, g, b }
}

/// 128 by 64 pixels of 8192 colors, one per pixel.
fn gradient() -> Vec<[u8; 3]> {
    (0..128 * 64).map(|i| [(i % 128) as u8 * 2, (i / 128) as u8 * 4, (i * 7) as u8]).collect()
}

fn encode(encoder: &mut SixelEncoder, colors: &[[u8; 3]]) -> String {
    let mut out = Vec::new();
    encoder.encode_into(&opaque(colors), 128, 64, &mut out).unwrap();
    String::from_utf8(out).unwrap()
}

#[test]
fn counted_colors_quantize_as_the_pipeline_does() {
    // 5038 colors of 1 to over 8 pixels each, which grow the table twice.
    let (width, height) = (128, 128);
    let gradient = gradient();
    let colors: Vec<[u8; 3]> = (0..width * height).map(|i| gradient[i * i / 7 % 8192]).collect();
    let size = PaletteSize::from_u16_clamped(256);
    let pixels: Vec<Srgb<u8>> = colors.iter().map(|&[r, g, b]| Srgb::new(r, g, b)).collect();
    let image = ImageRef::new(width as u32, height as u32, &pixels).unwrap();
    let expected = Pipeline::new()
        .palette_size(size)
        .ditherer(None)
        .dedup(true)
        .input_image(image)
        .output_srgb8_indexed_image();
    let expected: Vec<Srgb<u8>> = expected.indices().iter().map(|&i| expected.palette()[usize::from(i)]).collect();

    let mut scratch = Scratch::default();
    assert!(count_opaque_colors(&opaque(&colors), &mut scratch));
    quantize_counted_colors(&mut scratch, 256);
    let got: Vec<Srgb<u8>> = scratch
        .indices
        .iter()
        .map(|&i| {
            let c = scratch.palette[usize::from(i)];
            Srgb::new(c.r, c.g, c.b)
        })
        .collect();
    assert_eq!(got, expected);
}

#[test]
fn counted_colors_hold_each_color_once_with_its_pixels() {
    let (a, b) = ([1, 2, 3], [4, 5, 6]);
    let mut scratch = Scratch::default();
    assert!(count_opaque_colors(&opaque(&[a, a, b, a]), &mut scratch));
    let counted = &scratch.counted;
    assert_eq!(counted.colors, [rgb([1, 2, 3]), rgb([4, 5, 6])]);
    assert_eq!(counted.counts, [3, 1]);
    assert_eq!(counted.pixels, [0, 0, 1, 0]);
    assert!((0..4).all(|i| scratch.opacity_mask.get(i)));
}

#[test]
fn a_reused_table_counts_the_next_image_alone() {
    let (a, b) = ([1, 2, 3], [4, 5, 6]);
    let mut scratch = Scratch::default();
    let mut first = gradient();
    first.push(a);
    assert!(count_opaque_colors(&opaque(&first), &mut scratch));
    assert!(count_opaque_colors(&opaque(&[b, b]), &mut scratch));
    assert_eq!(scratch.counted.colors, [rgb([4, 5, 6])]);
    assert_eq!(scratch.counted.counts, [2]);
    assert_eq!(scratch.counted.pixels, [0, 0]);
}

#[test]
fn dithering_goes_on_past_256_colors() {
    let colors = gradient();
    let with = |diffusion| {
        let options = EncodeOptions {
            diffusion: diffuse(diffusion),
            ..Default::default()
        };
        encode(&mut SixelEncoder::new().with_options(options), &colors)
    };
    assert_ne!(with(0.0), with(0.875));
}

#[test]
fn a_custom_palette_without_dithering_keeps_its_colors() {
    let black_and_white = PaletteBuf::new(vec![Srgb::new(0, 0, 0), Srgb::new(255, 255, 255)]).unwrap();
    let options = EncodeOptions {
        diffusion: diffuse(0.0),
        quantize_method: black_and_white.into(),
        ..Default::default()
    };
    let encoded = encode(&mut SixelEncoder::new().with_options(options), &gradient());
    assert_eq!(encoded.matches(";2;").count(), 2, "{encoded}");
}

#[test]
fn a_mask_is_full_when_its_first_bits_are_set() {
    for len in [1, 63, 64, 65, 128] {
        let mut mask = BitMask::zeros(len);
        (0..len).for_each(|i| mask.set(i));
        assert!(mask.is_full(len), "{len}");
        for hole in [0, len / 2, len - 1] {
            let mut mask = BitMask::zeros(len);
            (0..len).filter(|&i| i != hole).for_each(|i| mask.set(i));
            assert!(!mask.is_full(len), "{len} {hole}");
        }
    }
}

#[test]
fn a_transparent_pixel_stops_the_count() {
    let mut rgba = opaque(&[[1, 2, 3], [4, 5, 6]]);
    rgba[7] = 0;
    assert!(!count_opaque_colors(&rgba, &mut Scratch::default()));
}

/// Run [`map_visible_pixels`] over `colors` and return the indices.
fn map(colors: &[Oklab], mask: &BitMask, width: usize, color_map: &ColorMap, diffusion: f32) -> Vec<u8> {
    let mut dither = Dither {
        colors: colors.to_vec(),
        ..Default::default()
    };
    let mut indices = vec![0; colors.len()];
    map_visible_pixels(&mut dither, mask, width, color_map, diffuse(diffusion), &mut indices);
    indices
}

#[test]
fn transparent_pixels_stop_error_diffusion() {
    let palette = PaletteBuf::new(vec![Oklab::new(0.0, 0.0, 0.0), Oklab::new(1.0, 0.0, 0.0)]).unwrap();
    let color_map = NearestNeighborColorMap::new(palette);
    // Horizontal, vertical and reverse-scan barriers, including an empty row.
    for (width, len, visible) in [(3, 3, [0, 2]), (1, 3, [0, 2]), (3, 6, [3, 5]), (3, 9, [1, 7])] {
        let colors = vec![Oklab::new(0.49, 0.0, 0.0); len];
        let mut mask = BitMask::zeros(len);
        for i in visible {
            mask.set(i);
        }
        let indices = map(&colors, &mask, width, &color_map, 1.0);
        for i in visible {
            assert_eq!(indices[i], 0, "error must not cross transparent pixels");
        }
    }
}

#[test]
fn masked_dithering_changes_visible_gradients() {
    let palette = PaletteBuf::new(vec![Oklab::new(0.0, 0.0, 0.0), Oklab::new(1.0, 0.0, 0.0)]).unwrap();
    let color_map = NearestNeighborColorMap::new(palette);
    let colors = vec![Oklab::new(0.49, 0.0, 0.0); 3];
    let mut mask = BitMask::zeros(3);
    mask.set(0);
    mask.set(1);
    assert_eq!(map(&colors, &mask, 3, &color_map, 0.0), [0, 0, 0]);
    assert_eq!(map(&colors, &mask, 3, &color_map, 1.0), [0, 1, 0]);
}

#[test]
fn test_encode_simple() {
    let rgba = vec![255u8, 0, 0, 255]; // 1x1 red pixel
    let result = sixel_encode(&rgba, 1, 1, &EncodeOptions::default());
    assert!(result.is_ok());
    let sixel = result.unwrap();
    assert!(sixel.starts_with("\x1bP9;1;0q\"1;1;1;1"));
    assert!(sixel.ends_with("\x1b\\"));
}

#[test]
fn test_encode_2x2() {
    let rgba = vec![
        255, 0, 0, 255, // red
        0, 255, 0, 255, // green
        0, 0, 255, 255, // blue
        255, 255, 0, 255, // yellow
    ];
    let result = sixel_encode(&rgba, 2, 2, &EncodeOptions::default());
    assert!(result.is_ok());
}

// This test is a compatibility test, the P1 value needs to be 7-9 in order to have square pixels. If it is set to a different value
// like 0 (default) then most terminals will do things correctly but the Windows Terminal will default to a non-square sixel making the
// image print out with an incorrect aspect ratio.
#[test]
fn test_encode_is_set_to_square_pixels() {
    let rgba = vec![
        255, 0, 0, 255, // red
        0, 0, 255, 255, // blue
    ];
    let sixel = sixel_encode(&rgba, 2, 1, &EncodeOptions::default()).unwrap();
    assert!(sixel.contains("\x1bP9;"));
    // Raster attributes must also state a 1:1 ratio: multiplexers such as tmux
    // rewrite P1 but pass the raster attributes through unchanged.
    assert!(sixel.contains("\"1;1;2;1"));
}

#[test]
fn test_invalid_dimensions() {
    let rgba = vec![0u8; 16];

    assert!(sixel_encode(&rgba, 0, 4, &EncodeOptions::default()).is_err());
    assert!(sixel_encode(&rgba, 4, 0, &EncodeOptions::default()).is_err());
    assert!(sixel_encode(&rgba, 10, 10, &EncodeOptions::default()).is_err());
}
