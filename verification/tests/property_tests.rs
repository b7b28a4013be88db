//! Exact bytes, edge cases, and what holds of the encoder as a whole.

use icy_sixel::bands::{encode_indexed_to_sixel, Bands};
use icy_sixel::counted::{fibonacci_slot, Counted, MIN_COUNTED_SLOTS};
use icy_sixel::dither::{hand_on_error, map_visible_pixels, serpentine_column, Dither};
use icy_sixel::encoder::{goes_by_colors, sixel_encode_impl};
use icy_sixel::mask::BitMask;
use icy_sixel::number::write_number;
use icy_sixel::palette::index_exact_colors;
use icy_sixel::quantize::{quantize_transparent, spread_indices};
use icy_sixel::quantizer::MethodKind;
use icy_sixel::runs::{run_at, write_empty_run};
use icy_sixel::scratch::Scratch;
use icy_sixel::types::{validate_encode_dimensions, Header, Rgb};
use icy_sixel::{
    sixel_encode, sixel_encode_default, BackgroundMode, EncodeOptions, FloydSteinberg, PixelAspectRatio, QuantizeMethod, SixelEncoder,
    SixelError, SIXEL_PIXEL_LIMIT, SIXEL_WIDTH_LIMIT,
};
use quantette::color_map::{IndexedColorMap, NearestNeighborColorMap};
use quantette::color_space::{oklab_to_srgb8, srgb8_to_oklab};
use quantette::deps::palette::{Oklab, Srgb};
use quantette::{ImageRef, PaletteBuf, PaletteSize, Pipeline};

/// A small generator of numbers that look random.
struct Numbers(u64);

impl Numbers {
    fn next(&mut self) -> u64 {
        self.0 = self.0.wrapping_mul(6_364_136_223_846_793_005).wrapping_add(1_442_695_040_888_963_407);
        self.0 >> 33
    }

    fn byte(&mut self) -> u8 {
        (self.next() % 256) as u8
    }
}

fn mask_of(bits: &[bool]) -> BitMask {
    let mut mask = BitMask::zeros(bits.len());
    for (i, &bit) in bits.iter().enumerate() {
        if bit {
            mask.set(i);
        }
    }
    mask
}

fn header(width: usize, height: usize) -> Header {
    Header {
        width,
        height,
        aspect_ratio: PixelAspectRatio::default(),
        background_mode: BackgroundMode::default(),
    }
}

fn no_dithering() -> EncodeOptions {
    EncodeOptions {
        diffusion: None,
        ..Default::default()
    }
}

#[test]
fn numbers_are_written_in_decimal() {
    for n in [0, 1, 9, 10, 99, 100, 65_535, 1_000_000, usize::MAX] {
        let mut out = b"x".to_vec();
        write_number(&mut out, n);
        assert_eq!(String::from_utf8(out).unwrap(), format!("x{n}"));
    }
}

#[test]
fn empty_runs_are_cut_at_the_repeat_limit() {
    let cases = [
        (0, ""),
        (1, "?"),
        (3, "???"),
        (4, "!4?"),
        (65_535, "!65535?"),
        (65_536, "!65535??"),
        (65_538, "!65535????"),
        (131_074, "!65535?!65535?!4?"),
    ];
    for (len, expected) in cases {
        let mut out = Vec::new();
        write_empty_run(&mut out, len);
        assert_eq!(String::from_utf8(out).unwrap(), expected, "{len}");
    }
}

#[test]
fn runs_stop_where_the_index_or_the_opacity_changes() {
    let indices = [9, 9, 5, 5, 5, 7];
    let mask = mask_of(&[true, true, true, true, false, false]);
    assert_eq!(run_at(&indices, None, 0, 0, 6), (2, Some(9)));
    assert_eq!(run_at(&indices, None, 0, 2, 6), (5, Some(5)));
    assert_eq!(run_at(&indices, None, 2, 0, 3), (3, Some(5)));
    assert_eq!(run_at(&indices, Some(&mask), 0, 2, 6), (4, Some(5)));
    assert_eq!(run_at(&indices, Some(&mask), 0, 4, 6), (6, None));
    // Transparent pixels need no entry.
    assert_eq!(run_at(&[], Some(&BitMask::zeros(4)), 0, 1, 4), (4, None));
    // Nor do opaque pixels before the run.
    assert_eq!(run_at(&[], Some(&mask), 0, 4, 6), (6, None));
}

#[test]
fn the_bytes_of_a_small_image_are_these() {
    let palette = [Rgb { r: 0, g: 0, b: 0 }, Rgb { r: 255, g: 128, b: 1 }];
    // Two columns of seven rows. The last pixel is transparent.
    let indices = [0, 1, 0, 1, 0, 0, 1, 1, 0, 0, 0, 0, 1, 0];
    let mask = mask_of(&[true, true, true, true, true, true, true, true, true, true, true, true, true, false]);
    let mut out = b"before".to_vec();
    encode_indexed_to_sixel(&palette, &indices, &mask, header(2, 7), &mut Bands::default(), &mut out);
    assert_eq!(
        String::from_utf8(out).unwrap(),
        "before\x1bP9;1;0q\"1;1;2;7#0;2;0;0;0#1;2;100;50;0#0vs$#1GJ$-#1@$-\x1b\\"
    );
}

#[test]
fn a_run_that_starts_late_is_led_by_empty_sixels() {
    let palette = [Rgb { r: 255, g: 255, b: 255 }];
    let mut bits = vec![false; 10];
    bits[5..].fill(true);
    let mut out = Vec::new();
    encode_indexed_to_sixel(&palette, &[0; 10], &mask_of(&bits), header(10, 1), &mut Bands::default(), &mut out);
    assert_eq!(String::from_utf8(out).unwrap(), "\x1bP9;1;0q\"1;1;10;1#0;2;100;100;100#0!5?!5@$-\x1b\\");
}

#[test]
fn a_color_beyond_the_first_band_leaves_no_trace_in_the_next() {
    let palette = [Rgb { r: 0, g: 0, b: 0 }, Rgb { r: 255, g: 0, b: 0 }];
    // One column: six rows of color 0, then six of color 1.
    let indices = [0, 0, 0, 0, 0, 0, 1, 1, 1, 1, 1, 1];
    let mut bands = Bands::default();
    for _ in 0..2 {
        let mut out = Vec::new();
        encode_indexed_to_sixel(&palette, &indices, &mask_of(&[true; 12]), header(1, 12), &mut bands, &mut out);
        assert!(String::from_utf8(out).unwrap().ends_with("#0~$-#1~$-\x1b\\"));
    }
}

#[test]
fn a_full_mask_ignores_the_bits_after_its_first() {
    let mask = mask_of(&[true, true, true, false, true]);
    assert!(mask.is_full(0));
    assert!(mask.is_full(3));
    assert!(!mask.is_full(4));
    assert!(!mask.is_full(5));
    // Past the last word, a cleared bit settles it.
    assert!(!mask.is_full(70));
    let mut reused = mask;
    reused.reset(2);
    assert!(!reused.get(0) && !reused.get(2));
}

#[test]
fn the_first_slot_is_the_top_bits_of_the_product() {
    assert_eq!(fibonacci_slot([0, 0, 0], 4096), 0);
    assert_eq!(fibonacci_slot([1, 2, 3], 4096), 3124);
    assert_eq!(fibonacci_slot([255, 255, 255], 4096), 300);
    assert_eq!(fibonacci_slot([200, 100, 50], 8192), 5268);
    assert_eq!(fibonacci_slot([4, 5, 6], 2), 1);
    assert_eq!(fibonacci_slot([0, 0, 1], 1), 0);
}

#[test]
fn the_table_finds_every_color_again_after_it_grew() {
    let mut counted = Counted::default();
    counted.clear();
    assert_eq!(counted.slots.len(), MIN_COUNTED_SLOTS);
    let color = |i: u32| Rgb {
        r: (i % 251) as u8,
        g: (i / 251) as u8,
        b: (i * 7) as u8,
    };
    for i in 0..20_000 {
        assert_eq!(counted.find_or_insert(color(i)), i);
    }
    assert_eq!(counted.slots.len(), 65_536);
    let slots = counted.slots.clone();
    for i in (0..20_000).rev() {
        assert_eq!(counted.find_or_insert(color(i)), i);
    }
    assert_eq!(counted.slots, slots);
    let mut held: Vec<u32> = slots.into_iter().filter(|&value| value != 0).collect();
    held.sort_unstable();
    assert!(held.into_iter().eq(1..=20_000));
    assert_eq!(counted.colors.len(), 20_000);
    assert!(counted.counts.iter().all(|&count| count == 0));
    counted.count_pixel(3);
    assert_eq!((counted.counts[3], counted.pixels.as_slice()), (1, [3].as_slice()));
}

#[test]
fn new_buffers_are_empty() {
    let scratch = Scratch::default();
    assert!(scratch.rgb_pixels.is_empty() && scratch.palette.is_empty() && scratch.indices.is_empty());
    let counted = &scratch.counted;
    assert!(counted.slots.is_empty() && counted.colors.is_empty());
    assert!(counted.counts.is_empty() && counted.pixels.is_empty());
    let dither = &scratch.dither;
    assert!(dither.opaque_pixels.is_empty() && dither.colors.is_empty());
    assert!(dither.current.is_empty() && dither.next.is_empty());
    assert!(scratch.opacity_mask.is_full(0));
}

#[test]
fn a_color_goes_to_the_first_free_slot() {
    let mut counted = Counted::default();
    counted.clear();
    // The first color takes its own slot, and so do later ones that find theirs free.
    for (i, [r, g, b]) in [[1, 2, 3], [255, 255, 255], [0, 0, 0]].into_iter().enumerate() {
        assert_eq!(counted.find_or_insert(Rgb { r, g, b }) as usize, i);
        assert_eq!(counted.slots[fibonacci_slot([r, g, b], MIN_COUNTED_SLOTS)] as usize, i + 1);
    }
    // Another color of a slot that is taken goes to the next one.
    let home = fibonacci_slot([1, 2, 3], MIN_COUNTED_SLOTS);
    let [_, r, g, b] = (0..1u32 << 24)
        .map(u32::to_be_bytes)
        .find(|&[_, r, g, b]| [r, g, b] != [1, 2, 3] && fibonacci_slot([r, g, b], MIN_COUNTED_SLOTS) == home)
        .unwrap();
    assert_eq!(counted.find_or_insert(Rgb { r, g, b }), 3);
    assert_eq!(counted.slots[home..home + 2], [1, 4]);
}

#[test]
fn exact_colors_fit_a_budget_or_do_not() {
    let rgba = [1, 2, 3, 255, 4, 5, 6, 128, 7, 8, 9, 127, 1, 2, 3, 200];
    let mut scratch = Scratch::default();
    assert!(!index_exact_colors(&rgba, 1, &mut scratch));
    assert!(index_exact_colors(&rgba, 2, &mut scratch));
    assert_eq!(scratch.palette, [Rgb { r: 1, g: 2, b: 3 }, Rgb { r: 4, g: 5, b: 6 }]);
    assert_eq!((scratch.indices[0], scratch.indices[1], scratch.indices[3]), (0, 1, 0));
    assert_eq!([0, 1, 2, 3].map(|i| scratch.opacity_mask.get(i)), [true, true, false, true]);
}

#[test]
fn exact_colors_rest_on_the_image_alone() {
    let rgba = [1, 2, 3, 255, 9, 9, 9, 127, 4, 5, 6, 128, 1, 2, 3, 200];
    let mut used = Scratch {
        rgb_pixels: vec![Rgb { r: 7, g: 7, b: 7 }],
        indices: vec![7; 9],
        opacity_mask: mask_of(&[true; 200]),
        ..Default::default()
    };
    for scratch in [&mut Scratch::default(), &mut used] {
        assert!(index_exact_colors(&rgba, 2, scratch));
        assert_eq!(scratch.palette, [Rgb { r: 1, g: 2, b: 3 }, Rgb { r: 4, g: 5, b: 6 }]);
        assert_eq!(scratch.indices, [0, 0, 1, 0]);
        assert_eq!([0, 1, 2, 3].map(|i| scratch.opacity_mask.get(i)), [true, false, true, true]);
        assert!((4..64).all(|i| !scratch.opacity_mask.get(i)));
        assert!(!index_exact_colors(&rgba, 1, scratch));
        // The third pixel is the first without room.
        assert!(scratch.palette.is_empty());
        assert_eq!(scratch.indices, [0; 4]);
        assert_eq!([0, 1, 2, 3].map(|i| scratch.opacity_mask.get(i)), [true, false, true, false]);
    }
    assert_eq!(used.rgb_pixels, [Rgb { r: 7, g: 7, b: 7 }]);
}

#[test]
fn pixels_without_a_place_in_a_row_keep_their_index() {
    let map = NearestNeighborColorMap::new(PaletteBuf::new(vec![Oklab::new(0.0, 0.0, 0.0)]).unwrap());
    for (ditherer, expected) in [(None, [0, 9, 0, 0, 0, 9]), (Some(FloydSteinberg::new()), [0, 9, 0, 0, 9, 9])] {
        let mut dither = Dither {
            colors: vec![Oklab::new(0.2, 0.0, 0.0); 5],
            ..Default::default()
        };
        let mut indices = vec![9; 6];
        let mask = mask_of(&[true, false, true, true, true]);
        map_visible_pixels(&mut dither, &mask, 2, &map, ditherer, &mut indices);
        assert_eq!(indices, expected);
    }
}

#[test]
fn dimensions_out_of_range_are_refused() {
    for (width, height) in [
        (0, 0),
        (0, 4),
        (4, 0),
        (SIXEL_WIDTH_LIMIT + 1, 1),
        (SIXEL_PIXEL_LIMIT / 64 + 1, 64),
    ] {
        assert_eq!(
            validate_encode_dimensions(width, height),
            Err(SixelError::InvalidDimensions { width, height })
        );
        let mut out = b"kept".to_vec();
        assert_eq!(
            SixelEncoder::new().encode_into(&[], width, height, &mut out),
            Err(SixelError::InvalidDimensions { width, height })
        );
        assert_eq!(out, b"kept");
    }
    assert_eq!(validate_encode_dimensions(SIXEL_WIDTH_LIMIT, 67), Ok(()));
    assert_eq!(validate_encode_dimensions(1, SIXEL_PIXEL_LIMIT), Ok(()));
    assert_eq!(validate_encode_dimensions(usize::MAX, 4), Err(SixelError::IntegerOverflow));
}

#[test]
fn a_buffer_of_another_size_is_refused() {
    for actual in [0, 3, 5, 8] {
        assert_eq!(
            sixel_encode(&vec![0; actual], 1, 1, &EncodeOptions::default()),
            Err(SixelError::BufferSizeMismatch { expected: 4, actual })
        );
    }
}

#[test]
fn a_red_pixel_is_these_bytes() {
    let expected = "\x1bP9;1;0q\"1;1;1;1#0;2;100;0;0#0@$-\x1b\\";
    let red = [255, 0, 0, 255];
    assert_eq!(sixel_encode_default(&red, 1, 1).unwrap(), expected);
    assert_eq!(sixel_encode(&red, 1, 1, &no_dithering()).unwrap(), expected);
    // The alpha counts only by its side of the threshold.
    assert_eq!(sixel_encode_default(&[255, 0, 0, 128], 1, 1).unwrap(), expected);
    assert_eq!(
        sixel_encode_default(&[255, 0, 0, 127], 1, 1).unwrap(),
        "\x1bP9;1;0q\"1;1;1;1-\x1b\\"
    );
}

#[test]
fn the_header_says_the_aspect_ratio_and_the_background() {
    let red = [255, 0, 0, 255];
    let cases = [
        (PixelAspectRatio::Square, BackgroundMode::Transparent, "\x1bP9;1;0q\"1;1;1;1#"),
        (PixelAspectRatio::TwoToOne, BackgroundMode::Opaque, "\x1bP0;0;0q\"2;1;1;1#"),
        (PixelAspectRatio::ThreeToOne, BackgroundMode::Transparent, "\x1bP3;1;0q\"3;1;1;1#"),
        (PixelAspectRatio::FiveToOne, BackgroundMode::Opaque, "\x1bP2;0;0q\"5;1;1;1#"),
    ];
    for (ratio, background, expected) in cases {
        let encoded = sixel_encode_impl(&red, 1, 1, &EncodeOptions::default(), ratio, background).unwrap();
        assert!(encoded.starts_with(expected), "{encoded}");
        let mut out = Vec::new();
        SixelEncoder::new()
            .with_aspect_ratio(ratio)
            .with_background_mode(background)
            .encode_into(&red, 1, 1, &mut out)
            .unwrap();
        assert_eq!(out, encoded.into_bytes());
    }
}

#[test]
fn the_default_options_diffuse_seven_eighths_of_the_error() {
    let options = EncodeOptions::default();
    assert_eq!(options.max_colors, 256);
    assert_eq!(options.diffusion.unwrap().error_diffusion(), 0.875);
    assert!(matches!(options.quantize_method, QuantizeMethod::Wu));
    let mut random = Numbers(3);
    let rgba: Vec<u8> = (0..30 * 20).flat_map(|_| [random.byte(), random.byte(), random.byte(), 255]).collect();
    let stated = EncodeOptions {
        max_colors: 256,
        diffusion: FloydSteinberg::with_error_diffusion(0.875),
        quantize_method: QuantizeMethod::Wu,
    };
    assert_eq!(
        sixel_encode_default(&rgba, 30, 20).unwrap(),
        sixel_encode(&rgba, 30, 20, &stated.clone()).unwrap()
    );
}

/// Serpentine error diffusion over plain numbers.
fn diffused(colors: &[Oklab], visible: &[bool], width: usize, palette: &[Oklab], strength: f32) -> Vec<u8> {
    let map = NearestNeighborColorMap::<Oklab, f32, 3>::new(PaletteBuf::new(palette.to_vec()).unwrap());
    let mut indices = vec![0; colors.len()];
    let mut current = vec![[0.0f32; 3]; width + 2];
    let mut next = vec![[0.0f32; 3]; width + 2];
    for y in 0..colors.len() / width {
        for step in 0..width {
            let x = if y % 2 == 0 { step } else { width - 1 - step };
            let i = y * width + x;
            if !visible[i] {
                continue;
            }
            let carried = current[x + 1];
            let color = [colors[i].l + carried[0], colors[i].a + carried[1], colors[i].b + carried[2]];
            indices[i] = map.palette_index(&Oklab::new(color[0], color[1], color[2]));
            let nearest = palette[usize::from(indices[i])];
            let error = [color[0] - nearest.l, color[1] - nearest.a, color[2] - nearest.b];
            let (forward, backward) = if y % 2 == 0 { (x + 2, x) } else { (x, x + 2) };
            for channel in 0..3 {
                let share = error[channel] * strength / 16.0;
                current[forward][channel] += share * 7.0;
                next[backward][channel] += share * 3.0;
                next[x + 1][channel] += share * 5.0;
                next[forward][channel] += share;
            }
        }
        std::mem::swap(&mut current, &mut next);
        next.fill([0.0; 3]);
    }
    indices
}

#[test]
fn dithering_spreads_the_error_by_sixteenths() {
    let mut random = Numbers(7);
    for (width, height, count) in [(1, 9, 2), (9, 1, 3), (13, 11, 5), (32, 17, 16)] {
        for strength in [0.25, 0.5, 0.875, 1.0] {
            let len = width * height;
            let srgb: Vec<Srgb<u8>> = (0..len).map(|_| Srgb::new(random.byte(), random.byte(), random.byte())).collect();
            let colors = srgb8_to_oklab(&srgb);
            let palette = srgb8_to_oklab(
                &(0..count)
                    .map(|_| Srgb::new(random.byte(), random.byte(), random.byte()))
                    .collect::<Vec<Srgb<u8>>>(),
            );
            let visible: Vec<bool> = (0..len).map(|_| random.next() % 5 != 0).collect();
            let map = NearestNeighborColorMap::new(PaletteBuf::new(palette.clone()).unwrap());
            let mut dither = Dither {
                colors: colors.clone(),
                ..Default::default()
            };
            let mut indices = vec![0; len];
            let ditherer = FloydSteinberg::with_error_diffusion(strength);
            map_visible_pixels(&mut dither, &mask_of(&visible), width, &map, ditherer, &mut indices);
            assert_eq!(indices, diffused(&colors, &visible, width, &palette, strength));
            assert_eq!(dither.colors, colors);
        }
    }
}

#[test]
fn a_transparent_image_is_trained_on_its_opaque_pixels() {
    let mut random = Numbers(11);
    let (width, height) = (19, 14);
    let pixels: Vec<Rgb> = (0..width * height)
        .map(|_| Rgb {
            r: random.byte(),
            g: random.byte(),
            b: random.byte(),
        })
        .collect();
    let visible: Vec<bool> = (0..width * height).map(|_| random.next() % 3 != 0).collect();
    for (method, size) in [(QuantizeMethod::Wu, 8), (QuantizeMethod::kmeans(), 5)] {
        let srgb: Vec<Srgb<u8>> = pixels.iter().map(|c| Srgb::new(c.r, c.g, c.b)).collect();
        let opaque: Vec<Srgb<u8>> = srgb.iter().zip(&visible).filter(|(_, &seen)| seen).map(|(&c, _)| c).collect();
        let palette = Pipeline::new()
            .palette_size(PaletteSize::from_u16_clamped(size))
            .quantize_method(method.clone())
            .input_slice(&opaque)
            .unwrap()
            .output_oklab_palette()
            .into_vec();
        for ditherer in [None, FloydSteinberg::with_error_diffusion(0.5)] {
            let mut scratch = Scratch {
                rgb_pixels: pixels.clone(),
                opacity_mask: mask_of(&visible),
                ..Default::default()
            };
            quantize_transparent(&mut scratch, width, &method, size, ditherer).unwrap();
            let expected: Vec<Rgb> = oklab_to_srgb8(&palette)
                .into_iter()
                .map(|c| Rgb {
                    r: c.red,
                    g: c.green,
                    b: c.blue,
                })
                .collect();
            assert_eq!(scratch.palette, expected);
            assert!(scratch.palette.len() <= usize::from(size));
            let colors = srgb8_to_oklab(&srgb);
            let indices = match ditherer {
                Some(ditherer) => diffused(&colors, &visible, width, &palette, ditherer.error_diffusion()),
                None => {
                    let map = NearestNeighborColorMap::<Oklab, f32, 3>::new(PaletteBuf::new(palette.clone()).unwrap());
                    (0..colors.len())
                        .map(|i| if visible[i] { map.palette_index(&colors[i]) } else { 0 })
                        .collect()
                }
            };
            assert_eq!(scratch.indices, indices);
        }
    }
}

/// The SIXEL of an image as the quantizer gives it.
fn piped(rgba: &[u8], width: usize, height: usize, options: &EncodeOptions) -> String {
    let pixels: Vec<Srgb<u8>> = rgba.chunks_exact(4).map(|c| Srgb::new(c[0], c[1], c[2])).collect();
    let image = ImageRef::new(width as u32, height as u32, pixels.as_slice()).unwrap();
    let pipeline = Pipeline::new()
        .palette_size(PaletteSize::from_u16_clamped(options.max_colors))
        .quantize_method(options.quantize_method.clone())
        .ditherer(options.diffusion);
    let pipeline = if options.diffusion.is_none() { pipeline.dedup(true) } else { pipeline };
    let indexed = pipeline.input_image(image).output_srgb8_indexed_image();
    let palette: Vec<Rgb> = indexed
        .palette()
        .iter()
        .map(|c| Rgb {
            r: c.red,
            g: c.green,
            b: c.blue,
        })
        .collect();
    let mut out = Vec::new();
    let mask = mask_of(&vec![true; pixels.len()]);
    encode_indexed_to_sixel(&palette, indexed.indices(), &mask, header(width, height), &mut Bands::default(), &mut out);
    String::from_utf8(out).unwrap()
}

#[test]
fn an_opaque_image_is_quantized_with_the_given_settings() {
    let mut random = Numbers(23);
    let (width, height) = (31, 22);
    let rgba: Vec<u8> = (0..width * height).flat_map(|_| [random.byte(), random.byte(), random.byte(), 255]).collect();
    let custom = PaletteBuf::new(vec![Srgb::new(0, 0, 0), Srgb::new(200, 30, 40), Srgb::new(255, 255, 255)]).unwrap();
    let methods = [QuantizeMethod::Wu, QuantizeMethod::kmeans(), custom.into()];
    for quantize_method in methods {
        for diffusion in [None, FloydSteinberg::with_error_diffusion(0.3), Some(FloydSteinberg::new())] {
            if diffusion.is_none() && matches!(quantize_method, QuantizeMethod::Wu) {
                // These go by their distinct colors, in another order.
                continue;
            }
            for max_colors in [2, 7, 256] {
                let options = EncodeOptions {
                    max_colors,
                    diffusion,
                    quantize_method: quantize_method.clone(),
                };
                assert_eq!(
                    sixel_encode(&rgba, width, height, &options).unwrap(),
                    piped(&rgba, width, height, &options)
                );
            }
        }
    }
}

#[test]
fn hidden_rgb_and_alpha_do_not_change_an_exact_palette() {
    let first = [9, 8, 7, 255, 1, 2, 3, 0, 4, 5, 6, 128];
    let second = [9, 8, 7, 200, 250, 251, 252, 127, 4, 5, 6, 255];
    for exact in [false, true] {
        let mut encoder = SixelEncoder::new().with_exact_palette(exact);
        let (mut a, mut b) = (Vec::new(), Vec::new());
        encoder.encode_into(&first, 3, 1, &mut a).unwrap();
        encoder.encode_into(&second, 3, 1, &mut b).unwrap();
        assert_eq!(a, b);
    }
}

#[test]
fn the_exact_palette_is_in_the_order_of_the_first_pixels() {
    let rgba = [51, 0, 0, 255, 0, 255, 0, 255, 51, 0, 0, 255, 0, 0, 102, 0, 0, 0, 204, 255];
    let mut out = Vec::new();
    SixelEncoder::new()
        .with_exact_palette(true)
        .encode_into(&rgba, 5, 1, &mut out)
        .unwrap();
    assert_eq!(
        String::from_utf8(out).unwrap(),
        "\x1bP9;1;0q\"1;1;5;1#0;2;20;0;0#1;2;0;100;0#2;2;0;0;80#0@?@$#1?@$#2!4?@$-\x1b\\"
    );
}

#[test]
fn the_sixel_is_ascii() {
    let mut random = Numbers(31);
    let rgba: Vec<u8> = (0..50 * 13 * 4).map(|_| random.byte()).collect();
    assert!(sixel_encode_default(&rgba, 50, 13).unwrap().is_ascii());
}

#[test]
fn rows_alternate_their_direction() {
    assert_eq!([0, 1, 2].map(|step| serpentine_column(3, 4, step)), [0, 1, 2]);
    assert_eq!([0, 1, 2].map(|step| serpentine_column(3, 5, step)), [2, 1, 0]);
}

#[test]
fn error_is_handed_on_in_sixteenths() {
    let zero = Oklab::new(0.0, 0.0, 0.0);
    let strength = Oklab::new(0.5, 0.5, 0.5);
    let (adjusted, found) = (Oklab::new(40.0, -8.0, 0.0), Oklab::new(8.0, 24.0, 0.0));
    // The error is 32, -32 and 0, and a sixteenth of it at half the strength 1, -1 and 0.
    let share = |n: f32| Oklab::new(n, -n, 0.0);
    for (y, current_after, next_after) in [
        (0, [zero, zero, share(7.0)], [share(3.0), share(5.0), share(1.0)]),
        (1, [share(7.0), zero, zero], [share(1.0), share(5.0), share(3.0)]),
    ] {
        let (mut current, mut next) = (vec![zero; 3], vec![zero; 3]);
        hand_on_error(&mut current, &mut next, y, 0, adjusted, found, strength);
        assert_eq!(current, current_after);
        assert_eq!(next, next_after);
    }
}

#[test]
fn every_pixel_takes_the_index_of_its_color() {
    let mut indices = vec![9, 9];
    spread_indices(&vec![0, 2, 2, 1], &vec![5, 6, 7], &mut indices);
    assert_eq!(indices, [5, 7, 7, 6]);
}

#[test]
fn only_undithered_wu_goes_by_colors() {
    assert!(goes_by_colors(MethodKind::Wu, None));
    assert!(!goes_by_colors(MethodKind::Kmeans, None));
    assert!(!goes_by_colors(MethodKind::CustomPalette, None));
    assert!(!goes_by_colors(MethodKind::Wu, Some(FloydSteinberg::new())));
}
