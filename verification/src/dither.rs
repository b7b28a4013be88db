//! Mapping the visible pixels of an image to a palette.

use crate::mask::BitMask;
use crate::quantizer::{
    difference, level, map_color, nearest_index, product, quotient, strength, sum, ColorMap,
};
use crate::types::Rgb;
use quantette::deps::palette::Oklab;
use quantette::dither::FloydSteinberg;
use vstd::prelude::*;

verus! {

/// The buffers of [`map_visible_pixels`].
#[derive(Clone, Debug)]
pub struct Dither {
    /// The opaque pixels alone, which train the palette.
    pub opaque_pixels: Vec<Rgb>,
    /// Every pixel in Oklab, where the error diffusion runs.
    pub colors: Vec<Oklab>,
    /// The error carried into the row in progress and into the row below it.
    pub current: Vec<Oklab>,
    pub next: Vec<Oklab>,
}

impl Default for Dither {
    /// Empty buffers.
    fn default() -> (dither: Self)
        ensures
            dither.opaque_pixels@.len() == 0,
            dither.colors@.len() == 0,
            dither.current@.len() == 0,
            dither.next@.len() == 0,
    {
        Dither {
            opaque_pixels: Vec::new(),
            colors: Vec::new(),
            current: Vec::new(),
            next: Vec::new(),
        }
    }
}

/// The indices found so far, and the error carried into the row in progress and
/// into the row below it. The error of column `x` is at `x + 1`, so that the
/// columns beside the image have a place too.
pub struct Diffusion {
    pub indices: Seq<u8>,
    pub current: Seq<Oklab>,
    pub next: Seq<Oklab>,
}

/// What error diffusion reads: the colors of the pixels, which of them are
/// visible, the width of a row, the palette and the strength of the diffusion.
pub struct Canvas {
    pub colors: Seq<Oklab>,
    pub visible: Seq<bool>,
    pub width: int,
    pub palette: Seq<Oklab>,
    pub strength: Oklab,
}

/// No error for a row of `width` pixels.
pub open spec fn no_error(width: int) -> Seq<Oklab> {
    Seq::new((width + 2) as nat, |x: int| crate::quantizer::oklab_level(0))
}

/// The column of step `step` of row `y`. Even rows go from left to right, odd
/// rows from right to left.
pub open spec fn serpentine(width: int, y: int, step: int) -> int {
    if y % 2 == 0 {
        step
    } else {
        width - 1 - step
    }
}

/// `errors` with `share` times `weight` added at `place`.
pub open spec fn with_share(errors: Seq<Oklab>, place: int, share: Oklab, weight: u8) -> Seq<
    Oklab,
> {
    errors.update(
        place,
        crate::quantizer::oklab_sum(
            errors[place],
            crate::quantizer::oklab_product(share, crate::quantizer::oklab_level(weight)),
        ),
    )
}

/// Where the error goes on to in its own row, as a place in [`Diffusion`].
pub open spec fn ahead(y: int, x: int) -> int {
    if y % 2 == 0 {
        x + 2
    } else {
        x
    }
}

/// The place opposite to [`ahead`].
pub open spec fn behind(y: int, x: int) -> int {
    if y % 2 == 0 {
        x
    } else {
        x + 2
    }
}

/// One sixteenth of the difference between a color and the one found for it, at
/// the strength of the diffusion.
pub open spec fn sixteenth(color: Oklab, found: Oklab, strength: Oklab) -> Oklab {
    crate::quantizer::oklab_quotient(
        crate::quantizer::oklab_product(
            crate::quantizer::oklab_difference(color, found),
            strength,
        ),
        crate::quantizer::oklab_level(16),
    )
}

/// The error of the row in progress after the pixel at column `x` of row `y` has
/// handed its error on: 7 sixteenths go ahead.
pub open spec fn row_after(errors: Seq<Oklab>, y: int, x: int, share: Oklab) -> Seq<Oklab> {
    with_share(errors, ahead(y, x), share, 7)
}

/// The error of the row below after the pixel at column `x` of row `y` has handed
/// its error on: 3 sixteenths go behind it, 5 below it and 1 ahead of it.
pub open spec fn row_below_after(errors: Seq<Oklab>, y: int, x: int, share: Oklab) -> Seq<Oklab> {
    let next = with_share(with_share(errors, behind(y, x), share, 3), x + 1, share, 5);
    next.update(ahead(y, x), crate::quantizer::oklab_sum(next[ahead(y, x)], share))
}

impl Canvas {
    /// The color of the pixel at column `x` of row `y` with the error carried
    /// into it.
    pub open spec fn adjusted(self, state: Diffusion, y: int, x: int) -> Oklab {
        crate::quantizer::oklab_sum(self.colors[y * self.width + x], state.current[x + 1])
    }

    /// One sixteenth of the error that `color` leaves, at the strength of the
    /// diffusion.
    pub open spec fn share(self, color: Oklab) -> Oklab {
        sixteenth(
            color,
            self.palette[crate::quantizer::nearest(self.palette, color) as int],
            self.strength,
        )
    }

    /// After the pixel at column `x` of row `y`. A visible pixel takes the index
    /// of the nearest color and hands its error on. A transparent pixel does
    /// nothing, and the error carried into it is lost.
    pub open spec fn after_pixel(self, state: Diffusion, y: int, x: int) -> Diffusion {
        let i = y * self.width + x;
        if self.visible[i] {
            let color = self.adjusted(state, y, x);
            let share = self.share(color);
            Diffusion {
                indices: state.indices.update(i, crate::quantizer::nearest(self.palette, color)),
                current: row_after(state.current, y, x, share),
                next: row_below_after(state.next, y, x, share),
            }
        } else {
            state
        }
    }

    /// After the first `steps` pixels of row `y`.
    pub open spec fn after_steps(self, state: Diffusion, y: int, steps: nat) -> Diffusion
        decreases steps,
    {
        if steps == 0 {
            state
        } else {
            self.after_pixel(
                self.after_steps(state, y, (steps - 1) as nat),
                y,
                serpentine(self.width, y, steps - 1),
            )
        }
    }

    /// After the first `rows` rows.
    pub open spec fn after_rows(self, indices: Seq<u8>, rows: nat) -> Diffusion
        decreases rows,
    {
        if rows == 0 {
            Diffusion {
                indices,
                current: no_error(self.width),
                next: no_error(self.width),
            }
        } else {
            let state = self.after_steps(
                self.after_rows(indices, (rows - 1) as nat),
                rows - 1,
                self.width as nat,
            );
            Diffusion {
                indices: state.indices,
                current: state.next,
                next: no_error(self.width),
            }
        }
    }
}

/// The indices after every visible pixel has taken the index of the color of
/// `palette` that is nearest to its own.
pub open spec fn nearest_indices(
    colors: Seq<Oklab>,
    visible: Seq<bool>,
    palette: Seq<Oklab>,
    indices: Seq<u8>,
) -> Seq<u8> {
    Seq::new(
        indices.len(),
        |i: int|
            if i < colors.len() && visible[i] {
                crate::quantizer::nearest(palette, colors[i])
            } else {
                indices[i]
            },
    )
}

/// Where error diffusion over an image ends. `indices` are those it finds.
pub open spec fn diffused(
    colors: Seq<Oklab>,
    visible: Seq<bool>,
    width: int,
    palette: Seq<Oklab>,
    ditherer: FloydSteinberg,
    indices: Seq<u8>,
) -> Diffusion {
    let strength = crate::quantizer::diffusion_strength(ditherer);
    let canvas = Canvas { colors, visible, width, palette, strength };
    canvas.after_rows(indices, colors.len() / width as nat)
}

/// Whether pixel `i` takes an index: it is opaque and, with error diffusion, in a
/// row that is complete.
pub open spec fn takes_index(
    len: nat,
    visible: Seq<bool>,
    width: int,
    diffusion: Option<FloydSteinberg>,
    i: int,
) -> bool {
    &&& 0 <= i < len
    &&& visible[i]
    &&& diffusion is None || len % width as nat == 0 || i < len / width as nat * width
}

/// The indices that [`map_visible_pixels`] leaves. `indices` are those it
/// finds.
pub open spec fn mapped_indices(
    colors: Seq<Oklab>,
    visible: Seq<bool>,
    width: int,
    palette: Seq<Oklab>,
    diffusion: Option<FloydSteinberg>,
    indices: Seq<u8>,
) -> Seq<u8> {
    match diffusion {
        None => nearest_indices(colors, visible, palette, indices),
        Some(ditherer) => diffused(colors, visible, width, palette, ditherer, indices).indices,
    }
}

/// Whether every index is that of one of `colors` colors.
pub open spec fn below(indices: Seq<u8>, colors: nat) -> bool {
    forall|i: int| 0 <= i < indices.len() ==> #[trigger] indices[i] < colors
}

/// Map each visible pixel to its nearest color.
fn map_without_diffusion(
    colors: &Vec<Oklab>,
    opacity_mask: &BitMask,
    color_map: &ColorMap,
    indices: &mut Vec<u8>,
)
    requires
        colors@.len() <= opacity_mask@.len(),
        colors@.len() <= old(indices)@.len(),
    ensures
        final(indices)@ == nearest_indices(
            colors@,
            opacity_mask@,
            crate::quantizer::map_palette(*color_map),
            old(indices)@,
        ),
        forall|i: int|
            0 <= i < colors@.len() && opacity_mask@[i] ==> #[trigger] final(indices)@[i]
                < crate::quantizer::map_palette(*color_map).len(),
{
    let ghost palette = crate::quantizer::map_palette(*color_map);
    let ghost before = indices@;
    let mut i: usize = 0;
    while i < colors.len()
        invariant
            i <= colors@.len() <= opacity_mask@.len(),
            colors@.len() <= before.len(),
            indices@.len() == before.len(),
            palette == crate::quantizer::map_palette(*color_map),
            forall|j: int|
                0 <= j < before.len() ==> #[trigger] indices@[j] == if j < i && opacity_mask@[j] {
                    crate::quantizer::nearest(palette, colors@[j])
                } else {
                    before[j]
                },
            forall|j: int|
                0 <= j < i && opacity_mask@[j] ==> #[trigger] indices@[j] < palette.len(),
        decreases colors@.len() - i,
    {
        if opacity_mask.get(i) {
            let index: u8 = nearest_index(color_map, colors[i]);
            indices[i] = index;
        }
        i += 1;
    }
    assert(indices@ =~= nearest_indices(colors@, opacity_mask@, palette, before));
}

/// Add `share` times `weight` to the error at `place`.
fn add_share(errors: &mut Vec<Oklab>, place: usize, share: Oklab, weight: u8)
    requires
        place < old(errors)@.len(),
    ensures
        final(errors)@ == with_share(old(errors)@, place as int, share, weight),
{
    let error: Oklab = errors[place];
    errors[place] = sum(error, product(share, level(weight)));
}

/// Whether column `x` is among the first `steps` of row `y`.
spec fn passed(width: int, y: int, steps: int, x: int) -> bool {
    if y % 2 == 0 {
        0 <= x < steps
    } else {
        width - steps <= x < width
    }
}

/// The column of step `step` of row `y`.
pub fn serpentine_column(width: usize, y: usize, step: usize) -> (x: usize)
    requires
        step < width,
    ensures
        x == serpentine(width as int, y as int, step as int),
        x < width,
{
    if y % 2 == 0 {
        step
    } else {
        width - 1 - step
    }
}

/// Hand on the error of the pixel at column `x` of row `y`, whose color with the
/// error carried into it is `adjusted`, and which took the color `found`.
pub fn hand_on_error(
    current: &mut Vec<Oklab>,
    next: &mut Vec<Oklab>,
    y: usize,
    x: usize,
    adjusted: Oklab,
    found: Oklab,
    strength: Oklab,
)
    requires
        x + 2 < old(current)@.len(),
        x + 2 < old(next)@.len(),
    ensures
        final(current)@ == row_after(
            old(current)@,
            y as int,
            x as int,
            sixteenth(adjusted, found, strength),
        ),
        final(next)@ == row_below_after(
            old(next)@,
            y as int,
            x as int,
            sixteenth(adjusted, found, strength),
        ),
{
    assert(x + 2 < current.len());
    let error: Oklab = difference(adjusted, found);
    let share: Oklab = quotient(product(error, strength), level(16));
    let (forward, backward): (usize, usize) = if y % 2 == 0 {
        (x + 2, x)
    } else {
        (x, x + 2)
    };
    add_share(current, forward, share, 7);
    add_share(next, backward, share, 3);
    add_share(next, x + 1, share, 5);
    let last: Oklab = sum(next[forward], share);
    next[forward] = last;
}

/// Give the buffer the error of a row of `width` pixels, none.
fn reset_errors(errors: &mut Vec<Oklab>, width: usize)
    requires
        width + 2 <= usize::MAX,
    ensures
        final(errors)@ == no_error(width as int),
{
    errors.clear();
    let zero: Oklab = level(0);
    let mut x: usize = 0;
    while x < width + 2
        invariant
            x <= width + 2 <= usize::MAX,
            zero == crate::quantizer::oklab_level(0),
            errors@.len() == x,
            forall|i: int| 0 <= i < x ==> errors@[i] == zero,
        decreases width + 2 - x,
    {
        errors.push(zero);
        x += 1;
    }
    assert(errors@ =~= no_error(width as int));
}

/// Serpentine Floyd–Steinberg in Oklab, with transparent pixels acting as sinks
/// for incoming error. The palette and nearest-neighbor search come from quantette.
/// `indices` holds one zeroed entry per pixel and receives the palette index of
/// every opaque pixel. Without `diffusion` each pixel takes its nearest color.
pub fn map_visible_pixels(
    dither: &mut Dither,
    opacity_mask: &BitMask,
    width: usize,
    color_map: &ColorMap,
    diffusion: Option<FloydSteinberg>,
    indices: &mut Vec<u8>,
)
    requires
        old(dither).colors@.len() <= opacity_mask@.len(),
        old(dither).colors@.len() <= old(indices)@.len(),
        diffusion is Some ==> 0 < width && width + 2 <= usize::MAX,
    ensures
        final(dither).colors == old(dither).colors,
        final(dither).opaque_pixels == old(dither).opaque_pixels,
        match diffusion {
            None => final(dither).current == old(dither).current
                && final(dither).next == old(dither).next,
            Some(ditherer) => {
                let end = diffused(
                    old(dither).colors@,
                    opacity_mask@,
                    width as int,
                    crate::quantizer::map_palette(*color_map),
                    ditherer,
                    old(indices)@,
                );
                final(dither).current@ == end.current && final(dither).next@ == end.next
            },
        },
        final(indices)@.len() == old(indices)@.len(),
        final(indices)@ == mapped_indices(
            old(dither).colors@,
            opacity_mask@,
            width as int,
            crate::quantizer::map_palette(*color_map),
            diffusion,
            old(indices)@,
        ),
        forall|i: int|
            0 <= i < old(indices)@.len() ==> if takes_index(
                old(dither).colors@.len(),
                opacity_mask@,
                width as int,
                diffusion,
                i,
            ) {
                #[trigger] final(indices)@[i] < crate::quantizer::map_palette(*color_map).len()
            } else {
                final(indices)@[i] == old(indices)@[i]
            },
{
    let ditherer: FloydSteinberg = match diffusion {
        None => {
            map_without_diffusion(&dither.colors, opacity_mask, color_map, indices);
            return;
        },
        Some(ditherer) => ditherer,
    };
    let strength: Oklab = strength(ditherer);
    let ghost canvas = Canvas {
        colors: dither.colors@,
        visible: opacity_mask@,
        width: width as int,
        palette: crate::quantizer::map_palette(*color_map),
        strength,
    };
    let ghost before = indices@;
    reset_errors(&mut dither.current, width);
    reset_errors(&mut dither.next, width);
    let count: usize = dither.colors.len();
    let rows: usize = count / width;
    let mut y: usize = 0;
    assert(rows * width <= count) by (nonlinear_arith)
        requires
            rows == count / width,
            width > 0,
    ;
    assert(0 * width == 0) by (nonlinear_arith);
    while y < rows
        invariant
            y <= rows,
            0 < width,
            width + 2 <= usize::MAX,
            canvas.colors.len() == count,
            rows * width <= count,
            dither.colors@ == canvas.colors,
            opacity_mask@ == canvas.visible,
            width == canvas.width,
            crate::quantizer::map_palette(*color_map) == canvas.palette,
            strength == canvas.strength,
            canvas.colors.len() <= canvas.visible.len(),
            canvas.colors.len() <= before.len(),
            indices@.len() == before.len(),
            dither.opaque_pixels == old(dither).opaque_pixels,
            dither.colors == old(dither).colors,
            forall|j: int|
                0 <= j < before.len() ==> if j < y * width && canvas.visible[j] {
                    #[trigger] indices@[j] < canvas.palette.len()
                } else {
                    indices@[j] == before[j]
                },
            dither.current@.len() == width + 2,
            dither.next@.len() == width + 2,
            (Diffusion { indices: indices@, current: dither.current@, next: dither.next@ })
                == canvas.after_rows(before, y as nat),
        decreases rows - y,
    {
        let ghost start = canvas.after_rows(before, y as nat);
        proof {
            assert(y * width + width <= rows * width) by (nonlinear_arith)
                requires
                    y < rows,
                    width > 0,
            ;
            assert(0 <= y * width) by (nonlinear_arith);
        }
        let first: usize = y * width;
        let mut step: usize = 0;
        while step < width
            invariant
                step <= width,
                0 < width,
                width + 2 <= usize::MAX,
                first == y * width,
                canvas.colors.len() == count,
                first + width <= count,
                dither.colors@ == canvas.colors,
                opacity_mask@ == canvas.visible,
                width == canvas.width,
                crate::quantizer::map_palette(*color_map) == canvas.palette,
                strength == canvas.strength,
                canvas.colors.len() <= canvas.visible.len(),
                canvas.colors.len() <= before.len(),
                indices@.len() == before.len(),
                dither.opaque_pixels == old(dither).opaque_pixels,
                dither.colors == old(dither).colors,
                forall|j: int|
                    0 <= j < before.len() ==> if canvas.visible[j] && (j < first || passed(
                        width as int,
                        y as int,
                        step as int,
                        j - first,
                    )) {
                        #[trigger] indices@[j] < canvas.palette.len()
                    } else {
                        indices@[j] == before[j]
                    },
                dither.current@.len() == width + 2,
                dither.next@.len() == width + 2,
                (Diffusion { indices: indices@, current: dither.current@, next: dither.next@ })
                    == canvas.after_steps(start, y as int, step as nat),
            decreases width - step,
        {
            let ghost state = canvas.after_steps(start, y as int, step as nat);
            let x: usize = serpentine_column(width, y, step);
            let i: usize = first + x;
            if opacity_mask.get(i) {
                let adjusted: Oklab = sum(dither.colors[i], dither.current[x + 1]);
                let index: u8 = nearest_index(color_map, adjusted);
                indices[i] = index;
                let found: Oklab = map_color(color_map, index);
                hand_on_error(
                    &mut dither.current,
                    &mut dither.next,
                    y,
                    x,
                    adjusted,
                    found,
                    strength,
                );
            }
            step += 1;
            proof {
                let now = Diffusion {
                    indices: indices@,
                    current: dither.current@,
                    next: dither.next@,
                };
                assert(now == canvas.after_pixel(state, y as int, x as int));
            }
        }
        std::mem::swap(&mut dither.current, &mut dither.next);
        reset_errors(&mut dither.next, width);
        y += 1;
        assert(y * width == first + width) by (nonlinear_arith)
            requires
                first == (y - 1) * width,
        ;
    }
    proof {
        vstd::arithmetic::div_mod::lemma_fundamental_div_mod(count as int, width as int);
        assert(rows * width == width * rows) by (nonlinear_arith);
        assert forall|i: int| 0 <= i < before.len() implies if takes_index(
            canvas.colors.len(),
            opacity_mask@,
            width as int,
            diffusion,
            i,
        ) {
            #[trigger] indices@[i] < canvas.palette.len()
        } else {
            indices@[i] == before[i]
        } by {}
    }
}

/// Whether two canvases differ only in the colors of transparent pixels.
spec fn looks_like(a: Canvas, b: Canvas) -> bool {
    &&& a.width == b.width
    &&& a.palette == b.palette
    &&& a.strength == b.strength
    &&& a.colors.len() == b.colors.len()
    &&& forall|i: int|
        0 <= i < a.colors.len() ==> #[trigger] a.visible[i] == b.visible[i] && (a.visible[i]
            ==> a.colors[i] == b.colors[i])
}

/// Canvases that look alike come to the same state after some pixels of a row.
proof fn steps_agree(a: Canvas, b: Canvas, state: Diffusion, y: int, steps: nat)
    requires
        looks_like(a, b),
        0 <= y,
        steps <= a.width,
        (y + 1) * a.width <= a.colors.len(),
    ensures
        a.after_steps(state, y, steps) == b.after_steps(state, y, steps),
    decreases steps,
{
    if steps > 0 {
        steps_agree(a, b, state, y, (steps - 1) as nat);
        let x = serpentine(a.width, y, steps - 1);
        let i = y * a.width + x;
        assert(0 <= i < a.colors.len()) by (nonlinear_arith)
            requires
                0 <= y,
                0 <= x < a.width,
                i == y * a.width + x,
                (y + 1) * a.width <= a.colors.len(),
        ;
        assert(a.visible[i] == b.visible[i]);
    }
}

/// Canvases that look alike come to the same state after some rows.
proof fn rows_agree(a: Canvas, b: Canvas, indices: Seq<u8>, rows: nat)
    requires
        looks_like(a, b),
        0 < a.width,
        rows * a.width <= a.colors.len(),
    ensures
        a.after_rows(indices, rows) == b.after_rows(indices, rows),
    decreases rows,
{
    if rows > 0 {
        let above = (rows - 1) as nat;
        assert(above * a.width <= rows * a.width) by (nonlinear_arith)
            requires
                above <= rows,
                0 < a.width,
        ;
        rows_agree(a, b, indices, above);
        assert(above + 1 == rows);
        steps_agree(a, b, a.after_rows(indices, above), above as int, a.width as nat);
    }
}

/// The colors of transparent pixels do not change any index, with or without
/// error diffusion.
pub proof fn hidden_colors_do_not_matter(
    colors: Seq<Oklab>,
    visible: Seq<bool>,
    other_colors: Seq<Oklab>,
    other_visible: Seq<bool>,
    width: int,
    palette: Seq<Oklab>,
    diffusion: Option<FloydSteinberg>,
    indices: Seq<u8>,
)
    requires
        0 < width,
        colors.len() == other_colors.len(),
        forall|i: int|
            0 <= i < colors.len() ==> #[trigger] visible[i] == other_visible[i] && (visible[i]
                ==> colors[i] == other_colors[i]),
    ensures
        mapped_indices(colors, visible, width, palette, diffusion, indices) == mapped_indices(
            other_colors,
            other_visible,
            width,
            palette,
            diffusion,
            indices,
        ),
{
    match diffusion {
        None => {
            let one = nearest_indices(colors, visible, palette, indices);
            let other = nearest_indices(other_colors, other_visible, palette, indices);
            assert forall|i: int| 0 <= i < indices.len() implies one[i] == other[i] by {
                if i < colors.len() {
                    assert(visible[i] == other_visible[i]);
                }
            }
            assert(one =~= other);
        },
        Some(ditherer) => {
            let strength = crate::quantizer::diffusion_strength(ditherer);
            let a = Canvas { colors, visible, width, palette, strength };
            let b = Canvas {
                colors: other_colors,
                visible: other_visible,
                width,
                palette,
                strength,
            };
            let rows = colors.len() / width as nat;
            assert(rows * width <= colors.len()) by (nonlinear_arith)
                requires
                    rows == colors.len() / width as nat,
                    0 < width,
            ;
            rows_agree(a, b, indices, rows);
        },
    }
}

/// Whether the buffers have room for the pixels of row `y` and for their error.
spec fn has_room(canvas: Canvas, state: Diffusion, y: int) -> bool {
    &&& 0 <= y
    &&& state.current.len() == canvas.width + 2
    &&& state.next.len() == canvas.width + 2
    &&& (y + 1) * canvas.width <= state.indices.len()
}

/// The buffers keep their lengths.
proof fn lengths_after_steps(canvas: Canvas, state: Diffusion, y: int, steps: nat)
    requires
        steps <= canvas.width,
        has_room(canvas, state, y),
    ensures
        has_room(canvas, canvas.after_steps(state, y, steps), y),
        canvas.after_steps(state, y, steps).indices.len() == state.indices.len(),
        steps < canvas.width ==> 0 <= y * canvas.width + serpentine(canvas.width, y, steps as int)
            < state.indices.len(),
    decreases steps,
{
    if steps > 0 {
        lengths_after_steps(canvas, state, y, (steps - 1) as nat);
    }
    if steps < canvas.width {
        let x = serpentine(canvas.width, y, steps as int);
        let i = y * canvas.width + x;
        assert(0 <= i < (y + 1) * canvas.width) by (nonlinear_arith)
            requires
                0 <= y,
                0 <= x < canvas.width,
                i == y * canvas.width + x,
        ;
    }
}

/// The buffers have the lengths that go with the image.
proof fn lengths_after_rows(canvas: Canvas, indices: Seq<u8>, rows: nat)
    requires
        0 < canvas.width,
        rows * canvas.width <= indices.len(),
    ensures
        canvas.after_rows(indices, rows).indices.len() == indices.len(),
        canvas.after_rows(indices, rows).current.len() == canvas.width + 2,
        canvas.after_rows(indices, rows).next == no_error(canvas.width),
    decreases rows,
{
    if rows > 0 {
        let above = (rows - 1) as nat;
        assert(above * canvas.width <= rows * canvas.width) by (nonlinear_arith)
            requires
                above <= rows,
                0 < canvas.width,
        ;
        lengths_after_rows(canvas, indices, above);
        assert(above + 1 == rows);
        lengths_after_steps(
            canvas,
            canvas.after_rows(indices, above),
            above as int,
            canvas.width as nat,
        );
    }
}

/// A place of the row below that no visible pixel of the row hands error to is
/// left as it was.
proof fn below_is_kept(canvas: Canvas, state: Diffusion, y: int, steps: nat, place: int)
    requires
        steps <= canvas.width,
        has_room(canvas, state, y),
        0 <= place < canvas.width + 2,
        forall|step: int|
            #![trigger serpentine(canvas.width, y, step)]
            0 <= step < steps && serpentine(canvas.width, y, step) <= place <= serpentine(
                canvas.width,
                y,
                step,
            ) + 2 ==> !canvas.visible[y * canvas.width + serpentine(canvas.width, y, step)],
    ensures
        canvas.after_steps(state, y, steps).next[place] == state.next[place],
    decreases steps,
{
    if steps > 0 {
        let last = (steps - 1) as nat;
        below_is_kept(canvas, state, y, last, place);
        lengths_after_steps(canvas, state, y, last);
        let x = serpentine(canvas.width, y, last as int);
        assert(0 <= x < canvas.width);
    }
}

/// A place of the row in progress that no visible pixel before it hands error to
/// is left as it was.
proof fn ahead_is_kept(canvas: Canvas, state: Diffusion, y: int, steps: nat, place: int)
    requires
        steps <= canvas.width,
        has_room(canvas, state, y),
        0 <= place < canvas.width + 2,
        forall|step: int|
            #![trigger serpentine(canvas.width, y, step)]
            0 <= step < steps && ahead(y, serpentine(canvas.width, y, step)) == place
                ==> !canvas.visible[y * canvas.width + serpentine(canvas.width, y, step)],
    ensures
        canvas.after_steps(state, y, steps).current[place] == state.current[place],
    decreases steps,
{
    if steps > 0 {
        let last = (steps - 1) as nat;
        ahead_is_kept(canvas, state, y, last, place);
        lengths_after_steps(canvas, state, y, last);
        let x = serpentine(canvas.width, y, last as int);
        assert(0 <= x < canvas.width);
    }
}

/// Steps over other pixels keep the index of a pixel.
proof fn steps_keep_index(
    canvas: Canvas,
    state: Diffusion,
    y: int,
    from: nat,
    to: nat,
    i: int,
)
    requires
        from <= to <= canvas.width,
        has_room(canvas, state, y),
        0 <= i < state.indices.len(),
        forall|step: int|
            from <= step < to ==> y * canvas.width + #[trigger] serpentine(canvas.width, y, step)
                != i,
    ensures
        canvas.after_steps(state, y, to).indices[i] == canvas.after_steps(
            state,
            y,
            from,
        ).indices[i],
    decreases to,
{
    if from < to {
        let last = (to - 1) as nat;
        steps_keep_index(canvas, state, y, from, last, i);
        lengths_after_steps(canvas, state, y, last);
        assert(y * canvas.width + serpentine(canvas.width, y, last as int) != i);
    }
}

/// Rows below a pixel keep its index.
proof fn rows_keep_index(
    canvas: Canvas,
    indices: Seq<u8>,
    from: nat,
    to: nat,
    y: int,
    x: int,
)
    requires
        0 < canvas.width,
        0 <= y < from <= to,
        0 <= x < canvas.width,
        to * canvas.width <= indices.len(),
    ensures
        canvas.after_rows(indices, to).indices[y * canvas.width + x] == canvas.after_rows(
            indices,
            from,
        ).indices[y * canvas.width + x],
    decreases to,
{
    if from < to {
        let last = (to - 1) as nat;
        let width = canvas.width;
        let i = y * width + x;
        assert(last * width <= to * width && 0 <= i < to * width) by (nonlinear_arith)
            requires
                last <= to,
                0 <= y < to,
                0 <= x < width,
                i == y * width + x,
        ;
        rows_keep_index(canvas, indices, from, last, y, x);
        lengths_after_rows(canvas, indices, last);
        assert(last + 1 == to);
        assert forall|step: int| 0 <= step < width implies last * width + #[trigger] serpentine(
            width,
            last as int,
            step,
        ) != i by {
            let other = serpentine(width, last as int, step);
            assert(last * width + other >= (y + 1) * width) by (nonlinear_arith)
                requires
                    y + 1 <= last,
                    0 < width,
                    0 <= other,
            ;
            assert((y + 1) * width == y * width + width) by (nonlinear_arith);
        }
        steps_keep_index(
            canvas,
            canvas.after_rows(indices, last),
            last as int,
            0,
            width as nat,
            i,
        );
    }
}

/// Whether a pixel is visible. Beside the image none is.
pub open spec fn sees(canvas: Canvas, y: int, x: int) -> bool {
    0 <= y && 0 <= x < canvas.width && canvas.visible[y * canvas.width + x]
}

/// The column before `x` in row `y`.
pub open spec fn previous(y: int, x: int) -> int {
    if y % 2 == 0 {
        x - 1
    } else {
        x + 1
    }
}

/// Error does not cross transparent pixels: a visible pixel takes the color
/// nearest to its own if the pixel before it in its row and the three pixels
/// above it, from which error could come, are transparent or beside the image.
pub proof fn transparent_pixels_stop_error_diffusion(
    canvas: Canvas,
    indices: Seq<u8>,
    rows: nat,
    y: int,
    x: int,
)
    requires
        0 <= y < rows,
        0 <= x < canvas.width,
        rows * canvas.width <= indices.len(),
        sees(canvas, y, x),
        !sees(canvas, y, previous(y, x)),
        !sees(canvas, y - 1, x - 1),
        !sees(canvas, y - 1, x),
        !sees(canvas, y - 1, x + 1),
    ensures
        canvas.after_rows(indices, rows).indices[y * canvas.width + x] == crate::quantizer::nearest(
            canvas.palette,
            crate::quantizer::oklab_sum(
                canvas.colors[y * canvas.width + x],
                crate::quantizer::oklab_level(0),
            ),
        ),
{
    let width = canvas.width;
    let i = y * width + x;
    assert(0 <= i < rows * width) by (nonlinear_arith)
        requires
            0 <= y < rows,
            0 <= x < width,
            i == y * width + x,
    ;
    let start = canvas.after_rows(indices, y as nat);
    assert(y * width <= (y + 1) * width <= rows * width) by (nonlinear_arith)
        requires
            y < rows,
            0 < width,
    ;
    lengths_after_rows(canvas, indices, y as nat);
    assert(start.current[x + 1] == crate::quantizer::oklab_level(0)) by {
        if y > 0 {
            let above = (y - 1) as nat;
            let before = canvas.after_rows(indices, above);
            assert(above * width <= y * width) by (nonlinear_arith)
                requires
                    above <= y,
                    0 < width,
            ;
            lengths_after_rows(canvas, indices, above);
            assert(above + 1 == y);
            assert forall|step: int|
                #![trigger serpentine(width, above as int, step)]
                0 <= step < width && serpentine(width, above as int, step) <= x + 1 <= serpentine(
                    width,
                    above as int,
                    step,
                ) + 2 implies !canvas.visible[above * width + serpentine(
                width,
                above as int,
                step,
            )] by {
                let other = serpentine(width, above as int, step);
                assert(other == x - 1 || other == x || other == x + 1);
                assert(!sees(canvas, y - 1, other));
            }
            below_is_kept(canvas, before, above as int, width as nat, x + 1);
        }
    }
    let step = if y % 2 == 0 {
        x
    } else {
        width - 1 - x
    };
    assert(serpentine(width, y, step) == x);
    assert forall|other: int|
        #![trigger serpentine(width, y, other)]
        0 <= other < step && ahead(y, serpentine(width, y, other)) == x
            + 1 implies !canvas.visible[y * width + serpentine(width, y, other)] by {
        assert(serpentine(width, y, other) == previous(y, x));
        assert(!sees(canvas, y, previous(y, x)));
    }
    ahead_is_kept(canvas, start, y, step as nat, x + 1);
    lengths_after_steps(canvas, start, y, step as nat);
    assert forall|other: int| step + 1 <= other < width implies y * width + #[trigger] serpentine(
        width,
        y,
        other,
    ) != i by {}
    steps_keep_index(canvas, start, y, (step + 1) as nat, width as nat, i);
    rows_keep_index(canvas, indices, (y + 1) as nat, rows, y, x);
}

/// Whether there is a visible pixel at column `x` of row `y`.
pub open spec fn is_on(visible: Seq<bool>, width: int, y: int, x: int) -> bool {
    0 <= y && 0 <= x < width && visible[y * width + x]
}

/// `carried` and `error` if there is a pixel that hands it on.
pub open spec fn gains(carried: Oklab, on: bool, error: Oklab) -> Oklab {
    if on {
        crate::quantizer::oklab_sum(carried, error)
    } else {
        carried
    }
}

/// The error that reaches the pixel at column `x` of row `y`, where `handed` is
/// one sixteenth of the error of each pixel.
///
/// Even rows are visited from left to right, odd rows from right to left. From
/// the row above come 1 sixteenth of the neighbor that was visited first, 5 of
/// the pixel straight above and 3 of the neighbor that was visited last, in this
/// order, and then 7 sixteenths of the pixel before it in its own row.
/// Transparent pixels hand on nothing.
pub open spec fn received(
    visible: Seq<bool>,
    width: int,
    handed: spec_fn(int, int) -> Oklab,
    y: int,
    x: int,
) -> Oklab {
    let first = if (y - 1) % 2 == 0 {
        x - 1
    } else {
        x + 1
    };
    let last = if (y - 1) % 2 == 0 {
        x + 1
    } else {
        x - 1
    };
    let before = if y % 2 == 0 {
        x - 1
    } else {
        x + 1
    };
    let one = gains(
        crate::quantizer::oklab_level(0),
        is_on(visible, width, y - 1, first),
        handed(y - 1, first),
    );
    let six = gains(
        one,
        is_on(visible, width, y - 1, x),
        crate::quantizer::oklab_product(handed(y - 1, x), crate::quantizer::oklab_level(5)),
    );
    let nine = gains(
        six,
        is_on(visible, width, y - 1, last),
        crate::quantizer::oklab_product(handed(y - 1, last), crate::quantizer::oklab_level(3)),
    );
    gains(
        nine,
        is_on(visible, width, y, before),
        crate::quantizer::oklab_product(handed(y, before), crate::quantizer::oklab_level(7)),
    )
}

/// One sixteenth of the error between a color and its nearest color in the
/// palette, at the strength of the ditherer.
pub open spec fn error_of(palette: Seq<Oklab>, ditherer: FloydSteinberg, color: Oklab) -> Oklab {
    crate::quantizer::oklab_quotient(
        crate::quantizer::oklab_product(
            crate::quantizer::oklab_difference(
                color,
                palette[crate::quantizer::nearest(palette, color) as int],
            ),
            crate::quantizer::diffusion_strength(ditherer),
        ),
        crate::quantizer::oklab_level(16),
    )
}

/// The step at which row `y` comes to column `x`.
spec fn step_of(width: int, y: int, x: int) -> int {
    if y % 2 == 0 {
        x
    } else {
        width - 1 - x
    }
}

/// The color of a pixel when it is visited, with the error that has reached it.
spec fn visited(canvas: Canvas, indices: Seq<u8>, y: int, x: int) -> Oklab {
    canvas.adjusted(
        canvas.after_steps(
            canvas.after_rows(indices, y as nat),
            y,
            step_of(canvas.width, y, x) as nat,
        ),
        y,
        x,
    )
}

/// What one step does to the error of the row below.
proof fn step_below(canvas: Canvas, state: Diffusion, y: int, step: nat, place: int)
    requires
        step < canvas.width,
        has_room(canvas, state, y),
        0 <= place < canvas.width + 2,
    ensures
        ({
            let x = serpentine(canvas.width, y, step as int);
            let before = canvas.after_steps(state, y, step);
            let share = canvas.share(canvas.adjusted(before, y, x));
            canvas.after_steps(state, y, step + 1).next[place]
                == if !canvas.visible[y * canvas.width + x] {
                before.next[place]
            } else if place == ahead(y, x) {
                crate::quantizer::oklab_sum(before.next[place], share)
            } else if place == x + 1 {
                crate::quantizer::oklab_sum(
                    before.next[place],
                    crate::quantizer::oklab_product(share, crate::quantizer::oklab_level(5)),
                )
            } else if place == behind(y, x) {
                crate::quantizer::oklab_sum(
                    before.next[place],
                    crate::quantizer::oklab_product(share, crate::quantizer::oklab_level(3)),
                )
            } else {
                before.next[place]
            }
        }),
{
    lengths_after_steps(canvas, state, y, step);
    assert((step + 1 - 1) as nat == step);
    let x = serpentine(canvas.width, y, step as int);
    assert(0 <= x < canvas.width);
}

/// Steps that are not beside a place of the row below leave it as it is.
proof fn steps_keep_below(
    canvas: Canvas,
    state: Diffusion,
    y: int,
    from: nat,
    to: nat,
    place: int,
)
    requires
        from <= to <= canvas.width,
        has_room(canvas, state, y),
        0 <= place < canvas.width + 2,
        forall|step: int|
            #![trigger serpentine(canvas.width, y, step)]
            from <= step < to ==> !(serpentine(canvas.width, y, step) <= place <= serpentine(
                canvas.width,
                y,
                step,
            ) + 2),
    ensures
        canvas.after_steps(state, y, to).next[place] == canvas.after_steps(
            state,
            y,
            from,
        ).next[place],
    decreases to,
{
    if from < to {
        let last = (to - 1) as nat;
        steps_keep_below(canvas, state, y, from, last, place);
        step_below(canvas, state, y, last, place);
        assert(last + 1 == to);
        let x = serpentine(canvas.width, y, last as int);
        assert(!(x <= place <= x + 2));
    }
}

/// The error that a row leaves for the row below it.
proof fn row_leaves(canvas: Canvas, indices: Seq<u8>, y: int, x: int)
    requires
        0 <= y,
        0 <= x < canvas.width,
        (y + 1) * canvas.width <= indices.len(),
    ensures
        ({
            let first = if y % 2 == 0 {
                x - 1
            } else {
                x + 1
            };
            let last = if y % 2 == 0 {
                x + 1
            } else {
                x - 1
            };
            let handed = |a: int, b: int| canvas.share(visited(canvas, indices, a, b));
            let one = gains(
                crate::quantizer::oklab_level(0),
                is_on(canvas.visible, canvas.width, y, first),
                handed(y, first),
            );
            let six = gains(
                one,
                is_on(canvas.visible, canvas.width, y, x),
                crate::quantizer::oklab_product(handed(y, x), crate::quantizer::oklab_level(5)),
            );
            let nine = gains(
                six,
                is_on(canvas.visible, canvas.width, y, last),
                crate::quantizer::oklab_product(handed(y, last), crate::quantizer::oklab_level(3)),
            );
            canvas.after_rows(indices, (y + 1) as nat).current[x + 1] == nine
        }),
{
    let width = canvas.width;
    let state = canvas.after_rows(indices, y as nat);
    assert(y * width <= (y + 1) * width) by (nonlinear_arith)
        requires
            0 < width,
    ;
    lengths_after_rows(canvas, indices, y as nat);
    assert((y + 1 - 1) as nat == y as nat);
    let step = step_of(width, y, x);
    let place = x + 1;
    assert(serpentine(width, y, step) == x);
    let from = if step == 0 {
        0
    } else {
        step - 1
    };
    let to = if step + 1 == width {
        width
    } else {
        step + 2
    };
    steps_keep_below(canvas, state, y, 0, from as nat, place);
    assert(canvas.after_steps(state, y, 0) == state);
    assert(state.next[place] == crate::quantizer::oklab_level(0));
    if step > 0 {
        step_below(canvas, state, y, from as nat, place);
        assert(from as nat + 1 == step as nat);
    }
    step_below(canvas, state, y, step as nat, place);
    if step + 1 < width {
        step_below(canvas, state, y, (step + 1) as nat, place);
        assert(step as nat + 1 == (step + 1) as nat);
        assert((step + 1) as nat + 1 == to as nat);
    }
    steps_keep_below(canvas, state, y, to as nat, width as nat, place);
}

/// The error that has reached a pixel when it is visited.
proof fn visited_is(canvas: Canvas, indices: Seq<u8>, y: int, x: int)
    requires
        0 <= y,
        0 <= x < canvas.width,
        (y + 1) * canvas.width <= indices.len(),
    ensures
        visited(canvas, indices, y, x) == crate::quantizer::oklab_sum(
            canvas.colors[y * canvas.width + x],
            received(
                canvas.visible,
                canvas.width,
                |a: int, b: int| canvas.share(visited(canvas, indices, a, b)),
                y,
                x,
            ),
        ),
{
    let width = canvas.width;
    let start = canvas.after_rows(indices, y as nat);
    let step = step_of(width, y, x);
    assert(y * width <= (y + 1) * width) by (nonlinear_arith)
        requires
            0 < width,
    ;
    lengths_after_rows(canvas, indices, y as nat);
    if y > 0 {
        assert((y - 1 + 1) * width <= indices.len());
        row_leaves(canvas, indices, y - 1, x);
        assert((y - 1 + 1) as nat == y as nat);
    }
    if step > 0 {
        let last = (step - 1) as nat;
        let before = serpentine(width, y, step - 1);
        assert(step_of(width, y, before) == step - 1);
        assert forall|other: int|
            #![trigger serpentine(width, y, other)]
            0 <= other < last && ahead(y, serpentine(width, y, other)) == x
                + 1 implies !canvas.visible[y * width + serpentine(width, y, other)] by {}
        ahead_is_kept(canvas, start, y, last, x + 1);
        lengths_after_steps(canvas, start, y, last);
        assert((step as nat - 1) as nat == last);
    }
}

/// A visible pixel keeps the index that it takes when it is visited.
proof fn visited_takes(canvas: Canvas, indices: Seq<u8>, rows: nat, y: int, x: int)
    requires
        0 <= y < rows,
        0 <= x < canvas.width,
        rows * canvas.width <= indices.len(),
        canvas.visible[y * canvas.width + x],
    ensures
        canvas.after_rows(indices, rows).indices[y * canvas.width + x] == crate::quantizer::nearest(
            canvas.palette,
            visited(canvas, indices, y, x),
        ),
{
    let width = canvas.width;
    let i = y * width + x;
    let start = canvas.after_rows(indices, y as nat);
    let step = step_of(width, y, x);
    assert(0 <= i < rows * width && y * width <= (y + 1) * width <= rows * width)
        by (nonlinear_arith)
        requires
            0 <= y < rows,
            0 <= x < width,
            i == y * width + x,
    ;
    lengths_after_rows(canvas, indices, y as nat);
    assert(serpentine(width, y, step) == x);
    lengths_after_steps(canvas, start, y, step as nat);
    assert((step + 1) as nat - 1 == step);
    assert forall|other: int| step + 1 <= other < width implies y * width + #[trigger] serpentine(
        width,
        y,
        other,
    ) != i by {}
    steps_keep_index(canvas, start, y, (step + 1) as nat, width as nat, i);
    assert((y + 1) as nat - 1 == y);
    rows_keep_index(canvas, indices, (y + 1) as nat, rows, y, x);
}

/// Floyd–Steinberg error diffusion: every visible pixel takes the palette color
/// nearest to its own color plus the error that reaches it from the pixels
/// visited before, each of which hands on the error between the color that it had
/// then, `seen`, and the one that it took.
pub proof fn error_diffusion_spreads_the_error_of_every_visible_pixel(
    colors: Seq<Oklab>,
    visible: Seq<bool>,
    width: int,
    palette: Seq<Oklab>,
    ditherer: FloydSteinberg,
    indices: Seq<u8>,
) -> (seen: spec_fn(int, int) -> Oklab)
    requires
        0 < width,
        colors.len() <= indices.len(),
    ensures
        forall|y: int, x: int|
            0 <= y && 0 <= x < width && (y + 1) * width <= colors.len() ==> #[trigger] seen(y, x)
                == crate::quantizer::oklab_sum(
                colors[y * width + x],
                received(
                    visible,
                    width,
                    |a: int, b: int| error_of(palette, ditherer, seen(a, b)),
                    y,
                    x,
                ),
            ),
        forall|y: int, x: int|
            0 <= y && 0 <= x < width && (y + 1) * width <= colors.len() && is_on(
                visible,
                width,
                y,
                x,
            ) ==> mapped_indices(colors, visible, width, palette, Some(ditherer), indices)[y * width
                + x] == crate::quantizer::nearest(palette, #[trigger] seen(y, x)),
{
    let strength = crate::quantizer::diffusion_strength(ditherer);
    let canvas = Canvas { colors, visible, width, palette, strength };
    let seen = |y: int, x: int| visited(canvas, indices, y, x);
    let rows = colors.len() / width as nat;
    assert(rows * width <= colors.len()) by (nonlinear_arith)
        requires
            rows == colors.len() / width as nat,
            0 < width,
    ;
    assert((|a: int, b: int| canvas.share(visited(canvas, indices, a, b))) =~= (|a: int, b: int|
        error_of(palette, ditherer, seen(a, b))));
    assert forall|y: int, x: int|
        0 <= y && 0 <= x < width && (y + 1) * width <= colors.len() implies #[trigger] seen(y, x)
        == crate::quantizer::oklab_sum(
        colors[y * width + x],
        received(
            visible,
            width,
            |a: int, b: int| error_of(palette, ditherer, seen(a, b)),
            y,
            x,
        ),
    ) by {
        visited_is(canvas, indices, y, x);
    }
    assert forall|y: int, x: int|
        0 <= y && 0 <= x < width && (y + 1) * width <= colors.len() && is_on(
            visible,
            width,
            y,
            x,
        ) implies mapped_indices(colors, visible, width, palette, Some(ditherer), indices)[y * width
        + x] == crate::quantizer::nearest(palette, #[trigger] seen(y, x)) by {
        assert(y < rows) by (nonlinear_arith)
            requires
                (y + 1) * width <= colors.len(),
                rows == colors.len() / width as nat,
                0 < width,
        ;
        visited_takes(canvas, indices, rows, y, x);
    }
    seen
}

} // verus!
