//! The distinct colors of an image.

use crate::types::Rgb;
use vstd::prelude::*;

verus! {

/// The number of slots of the table of [`Counted`] at the start of every
/// image. The table grows for an image of more colors.
pub const MIN_COUNTED_SLOTS: usize = 4096;

/// The number of colors that three bytes tell apart.
pub const COLOR_COUNT: usize = 16_777_216;

/// The three channels of a color as one number.
pub open spec fn color_key(color: Rgb) -> nat {
    (color.r * 65536 + color.g * 256 + color.b) as nat
}

/// The product of Fibonacci hashing, modulo 2^32.
pub open spec fn fibonacci_hash(key: nat) -> nat {
    (key * 0x9E37_79B1) % 0x1_0000_0000
}

/// The top bits of the hash of `color`, as many as number `len` slots.
pub open spec fn home_slot(color: Rgb, len: int) -> int {
    fibonacci_hash(color_key(color)) * len / 0x1_0000_0000
}

/// The first slot to try in a table of `2^bits` slots is the top `bits` bits of
/// the hash.
pub proof fn home_slot_is_the_top_bits(color: Rgb, bits: nat)
    requires
        bits <= 32,
    ensures
        home_slot(color, vstd::arithmetic::power2::pow2(bits) as int) == fibonacci_hash(
            color_key(color),
        ) / vstd::arithmetic::power2::pow2((32 - bits) as nat),
{
    let hash = fibonacci_hash(color_key(color)) as int;
    let len = vstd::arithmetic::power2::pow2(bits) as int;
    let rest = vstd::arithmetic::power2::pow2((32 - bits) as nat) as int;
    vstd::arithmetic::power2::lemma_pow2_pos(bits);
    vstd::arithmetic::power2::lemma_pow2_pos((32 - bits) as nat);
    vstd::arithmetic::power2::lemma_pow2_adds(bits, (32 - bits) as nat);
    vstd::arithmetic::power2::lemma2_to64();
    vstd::arithmetic::div_mod::lemma_div_denominator(hash * len, len, rest);
    vstd::arithmetic::div_mod::lemma_div_multiples_vanish(hash, len);
    assert(hash * len == len * hash) by (nonlinear_arith);
}

/// The first slot to try for `rgb` in a hash table of `len` slots, a power of
/// two. Fibonacci hashing takes the top bits of the product, which mix every
/// channel.
pub fn fibonacci_slot(rgb: [u8; 3], len: usize) -> (slot: usize)
    requires
        vstd::arithmetic::power2::is_pow2(len as int),
        1 <= len <= 0x1_0000_0000,
    ensures
        slot == home_slot((Rgb { r: rgb[0], g: rgb[1], b: rgb[2] }), len as int),
        slot < len,
{
    let key: u32 = rgb[0] as u32 * 65536 + rgb[1] as u32 * 256 + rgb[2] as u32;
    let hash: u32 = key.wrapping_mul(0x9E37_79B1);
    proof {
        assert(hash == fibonacci_hash(key as nat));
        assert(hash * len <= 0xFFFF_FFFF * len) by (nonlinear_arith)
            requires
                hash <= 0xFFFF_FFFF,
                len >= 0,
        ;
    }
    let product: u64 = hash as u64 * len as u64;
    (product / 0x1_0000_0000) as usize
}

/// The slot `step` slots after `home`, in a table of `len` slots that closes on
/// itself.
pub open spec fn wrap(home: int, step: int, len: int) -> int {
    if home + step < len {
        home + step
    } else {
        home + step - len
    }
}

/// What the slot holds that comes `step` slots after the first one to try for
/// `color`.
pub open spec fn probe(slots: Seq<u32>, color: Rgb, step: int) -> u32 {
    slots[wrap(home_slot(color, slots.len() as int), step, slots.len() as int)]
}

/// Whether a search for `color` comes upon `value` after `step` slots, none of
/// them empty.
pub open spec fn finds(slots: Seq<u32>, color: Rgb, step: int, value: int) -> bool {
    &&& 0 <= step < slots.len()
    &&& probe(slots, color, step) == value
    &&& forall|before: int| 0 <= before < step ==> #[trigger] probe(slots, color, before) != 0
}

/// Whether a search for color `i` comes upon its index.
pub open spec fn found(slots: Seq<u32>, colors: Seq<Rgb>, i: int) -> bool {
    exists|step: int| #[trigger] finds(slots, colors[i], step, i + 1)
}

/// Whether the slots hold the first `count` colors, each once and where a
/// search finds it.
pub open spec fn indexes(slots: Seq<u32>, colors: Seq<Rgb>, count: int) -> bool {
    &&& vstd::arithmetic::power2::is_pow2(slots.len() as int)
    &&& 1 <= slots.len() <= 0x1_0000_0000
    &&& count <= colors.len()
    &&& forall|p: int| 0 <= p < slots.len() ==> #[trigger] slots[p] <= count
    &&& forall|p: int, q: int|
        0 <= p < q < slots.len() && slots[p] != 0 ==> #[trigger] slots[p] != #[trigger] slots[q]
    &&& forall|i: int| 0 <= i < count ==> #[trigger] found(slots, colors, i)
}

/// The first empty slot that a search for `color` comes upon.
pub open spec fn free_slot(slots: Seq<u32>, color: Rgb) -> int {
    wrap(
        home_slot(color, slots.len() as int),
        choose|step: int| #[trigger] finds(slots, color, step, 0),
        slots.len() as int,
    )
}

/// The slots with one more than `index` in the first empty slot for `color`.
pub open spec fn with_color(slots: Seq<u32>, color: Rgb, index: int) -> Seq<u32> {
    slots.update(free_slot(slots, color), (index + 1) as u32)
}

/// A table of `len` slots after the first `count` colors have gone into it, one
/// by one.
pub open spec fn filled(colors: Seq<Rgb>, count: nat, len: nat) -> Seq<u32>
    decreases count,
{
    if count == 0 {
        Seq::new(len, |i: int| 0u32)
    } else {
        with_color(
            filled(colors, (count - 1) as nat, len),
            colors[count - 1],
            count - 1,
        )
    }
}

/// The colors after the first `count` do not matter to a table of these.
proof fn filled_by_the_first(colors: Seq<Rgb>, more: Seq<Rgb>, count: nat, len: nat)
    requires
        count <= colors.len(),
        count <= more.len(),
        forall|i: int| 0 <= i < count ==> #[trigger] colors[i] == more[i],
    ensures
        filled(colors, count, len) == filled(more, count, len),
    decreases count,
{
    if count > 0 {
        filled_by_the_first(colors, more, (count - 1) as nat, len);
        assert(colors[count - 1] == more[count - 1]);
    }
}

/// A search comes upon an empty slot at one step only.
pub(crate) proof fn free_slot_is(slots: Seq<u32>, color: Rgb, step: int)
    requires
        finds(slots, color, step, 0),
    ensures
        free_slot(slots, color) == wrap(
            home_slot(color, slots.len() as int),
            step,
            slots.len() as int,
        ),
{
    let chosen = choose|step: int| #[trigger] finds(slots, color, step, 0);
    assert(finds(slots, color, chosen, 0));
    if chosen < step {
        assert(probe(slots, color, chosen) != 0);
    } else if step < chosen {
        assert(probe(slots, color, step) != 0);
    }
}

/// The first slot to try is a slot.
proof fn home_slot_is_a_slot(color: Rgb, len: int)
    requires
        0 < len,
    ensures
        0 <= home_slot(color, len) < len,
{
    let hash = fibonacci_hash(color_key(color));
    assert(0 <= hash * len < 0x1_0000_0000 * len) by (nonlinear_arith)
        requires
            0 <= hash < 0x1_0000_0000,
            0 < len,
    ;
}

/// No more distinct numbers fit below a bound than the bound says.
proof fn distinct_below(values: Seq<int>, bound: int)
    requires
        0 <= bound,
        values.no_duplicates(),
        forall|i: int| 0 <= i < values.len() ==> 0 <= #[trigger] values[i] < bound,
    ensures
        values.len() <= bound,
{
    values.unique_seq_to_set();
    vstd::set_lib::lemma_int_range(0, bound);
    let range = vstd::set_lib::set_int_range(0, bound);
    assert(values.to_set().subset_of(range)) by {
        assert forall|v: int| values.to_set().contains(v) implies range.contains(v) by {
            let i = choose|i: int| 0 <= i < values.len() && values[i] == v;
            assert(0 <= values[i] < bound);
        }
    }
    vstd::set_lib::lemma_len_subset(values.to_set(), range);
}

/// There are no more distinct colors than three bytes tell apart.
pub proof fn distinct_colors_bound(colors: Seq<Rgb>)
    requires
        colors.no_duplicates(),
    ensures
        colors.len() <= COLOR_COUNT,
{
    let keys = Seq::new(colors.len(), |i: int| color_key(colors[i]) as int);
    assert(keys.no_duplicates()) by {
        assert forall|i: int, j: int|
            0 <= i < keys.len() && 0 <= j < keys.len() && i != j implies keys[i] != keys[j] by {
            assert(colors[i] != colors[j]);
        }
    }
    distinct_below(keys, COLOR_COUNT as int);
}

/// A table with more slots than colors has an empty one, and every search comes
/// upon it.
pub proof fn search_ends(slots: Seq<u32>, colors: Seq<Rgb>, count: int, color: Rgb)
    requires
        indexes(slots, colors, count),
        0 <= count < slots.len(),
    ensures
        exists|step: int| 0 <= step < slots.len() && #[trigger] probe(slots, color, step) == 0,
{
    let len = slots.len() as int;
    let home = home_slot(color, len);
    home_slot_is_a_slot(color, len);
    if forall|step: int| 0 <= step < len ==> #[trigger] probe(slots, color, step) != 0 {
        let values = Seq::new(slots.len(), |p: int| slots[p] - 1);
        assert forall|p: int| 0 <= p < len implies 0 <= #[trigger] values[p] < count by {
            let step = if p >= home {
                p - home
            } else {
                p - home + len
            };
            assert(probe(slots, color, step) == slots[p]);
        }
        assert(values.no_duplicates()) by {
            assert forall|p: int, q: int|
                0 <= p < len && 0 <= q < len && p != q implies values[p] != values[q] by {
                assert(0 <= values[p] && 0 <= values[q]);
                if p < q {
                    assert(slots[p] != slots[q]);
                } else {
                    assert(slots[q] != slots[p]);
                }
            }
        }
        distinct_below(values, count);
    }
}

/// A color that goes into the first empty slot of its search is found there,
/// and every other color where it was.
proof fn placed(slots: Seq<u32>, colors: Seq<Rgb>, count: int, step: int)
    requires
        indexes(slots, colors, count),
        0 <= count < colors.len(),
        count < u32::MAX,
        finds(slots, colors[count], step, 0),
    ensures
        ({
            let len = slots.len() as int;
            let slot = wrap(home_slot(colors[count], len), step, len);
            indexes(slots.update(slot, (count + 1) as u32), colors, count + 1)
        }),
{
    let len = slots.len() as int;
    let color = colors[count];
    let home = home_slot(color, len);
    home_slot_is_a_slot(color, len);
    let slot = wrap(home, step, len);
    let after = slots.update(slot, (count + 1) as u32);
    assert forall|p: int| 0 <= p < len implies #[trigger] after[p] <= count + 1 by {
        assert(slots[p] <= count);
    }
    assert forall|p: int, q: int| 0 <= p < q < len && after[p] != 0 implies #[trigger] after[p]
        != #[trigger] after[q] by {
        assert(slots[p] <= count);
        assert(slots[q] <= count);
    }
    assert forall|i: int| 0 <= i < count + 1 implies #[trigger] found(after, colors, i) by {
        home_slot_is_a_slot(colors[i], len);
        let s = if i < count {
            choose|s: int| #[trigger] finds(slots, colors[i], s, i + 1)
        } else {
            step
        };
        if i < count {
            assert(found(slots, colors, i));
            assert(finds(slots, colors[i], s, i + 1));
        }
        assert(probe(after, colors[i], s) == i + 1);
        assert forall|before: int| 0 <= before < s implies #[trigger] probe(
            after,
            colors[i],
            before,
        ) != 0 by {
            assert(probe(slots, colors[i], before) != 0);
        }
        assert(finds(after, colors[i], s, i + 1));
    }
}

/// The slot after `slot` in a table of `len` slots that closes on itself.
fn next_slot(slot: usize, len: usize) -> (next: usize)
    requires
        slot < len,
    ensures
        next == if slot + 1 == len {
            0
        } else {
            slot + 1
        },
{
    if slot + 1 == len {
        0
    } else {
        slot + 1
    }
}

/// The distinct colors of an image.
#[derive(Clone, Debug)]
pub struct Counted {
    /// A hash table. Each slot holds one more than the index of a color in
    /// `colors`, or zero. The length is a power of two, and at most half of
    /// the slots hold a color.
    pub slots: Vec<u32>,
    /// The distinct colors, in the order of their first pixel.
    pub colors: Vec<Rgb>,
    /// The number of pixels of each color in `colors`.
    pub counts: Vec<u32>,
    /// The index in `colors` of the color of every pixel.
    pub pixels: Vec<u32>,
}

impl Default for Counted {
    /// No table and no colors. [`Counted::clear`] makes it ready for an image.
    fn default() -> (counted: Self)
        ensures
            counted.slots@.len() == 0,
            counted.colors@.len() == 0,
            counted.counts@.len() == 0,
            counted.pixels@.len() == 0,
    {
        Counted { slots: Vec::new(), colors: Vec::new(), counts: Vec::new(), pixels: Vec::new() }
    }
}

impl Counted {
    /// Whether the table finds the colors, which are distinct and have a count
    /// each, and holds them in at most half of its slots, as they went in one by
    /// one. The number of slots is a power of two of at least
    /// [`MIN_COUNTED_SLOTS`].
    pub open spec fn well_formed(self) -> bool {
        &&& indexes(self.slots@, self.colors@, self.colors@.len() as int)
        &&& self.colors@.no_duplicates()
        &&& self.colors@.len() * 2 <= self.slots@.len()
        &&& self.slots@ == filled(self.colors@, self.colors@.len(), self.slots@.len())
        &&& MIN_COUNTED_SLOTS <= self.slots@.len()
        &&& self.slots@.len() == MIN_COUNTED_SLOTS || self.slots@.len() < 4 * self.colors@.len()
        &&& self.counts@.len() == self.colors@.len()
    }

    /// Empty the table and the colors.
    pub fn clear(&mut self)
        ensures
            final(self).well_formed(),
            final(self).slots@ == Seq::new(MIN_COUNTED_SLOTS as nat, |i: int| 0u32),
            final(self).colors@ == Seq::<Rgb>::empty(),
            final(self).counts@ == Seq::<u32>::empty(),
            final(self).pixels@ == Seq::<u32>::empty(),
    {
        self.slots.clear();
        self.slots.resize(MIN_COUNTED_SLOTS, 0);
        self.colors.clear();
        self.counts.clear();
        self.pixels.clear();
        assert(self.slots@ =~= filled(self.colors@, 0, MIN_COUNTED_SLOTS as nat));
        assert(vstd::arithmetic::power2::is_pow2(MIN_COUNTED_SLOTS as int)) by {
            reveal_with_fuel(vstd::arithmetic::power2::is_pow2, 13);
        }
    }

    /// Returns the index of `color` in `colors`, which joins `colors` with a
    /// count of zero if it is new.
    pub fn find_or_insert(&mut self, color: Rgb) -> (index: u32)
        requires
            old(self).well_formed(),
        ensures
            final(self).well_formed(),
            final(self).pixels@ == old(self).pixels@,
            index < final(self).colors@.len(),
            final(self).colors@[index as int] == color,
            old(self).colors@.contains(color) ==> final(self).colors@ == old(self).colors@
                && final(self).counts@ == old(self).counts@
                && final(self).slots@ == old(self).slots@,
            !old(self).colors@.contains(color) ==> final(self).colors@ == old(self).colors@.push(
                color,
            ) && final(self).counts@ == old(self).counts@.push(0),
            // A new color takes the first free slot, or the table doubles.
            !old(self).colors@.contains(color) ==> final(self).slots@ == if 2 * (
            old(self).colors@.len() + 1) <= old(self).slots@.len() {
                with_color(old(self).slots@, color, old(self).colors@.len() as int)
            } else {
                filled(
                    old(self).colors@.push(color),
                    old(self).colors@.len() + 1,
                    2 * old(self).slots@.len(),
                )
            },
    {
        proof {
            distinct_colors_bound(self.colors@);
            search_ends(self.slots@, self.colors@, self.colors@.len() as int, color);
            home_slot_is_a_slot(color, self.slots@.len() as int);
        }
        let ghost slots = self.slots@;
        let ghost colors = self.colors@;
        let ghost counts = self.counts@;
        let ghost len = slots.len() as int;
        let ghost home = home_slot(color, len);
        let mut slot: usize = self.slot_of(color);
        let ghost mut step: int = 0;
        loop
            invariant_except_break
                self.slots@ == slots,
                self.colors@ == colors,
                self.counts@ == counts,
                self.pixels@ == old(self).pixels@,
                *self == *old(self),
                self.well_formed(),
                len == slots.len(),
                home == home_slot(color, len),
                0 <= home < len,
                0 <= step < len,
                slot == wrap(home, step, len),
                exists|s: int| 0 <= s < len && #[trigger] probe(slots, color, s) == 0,
                forall|s: int|
                    0 <= s < step ==> #[trigger] probe(slots, color, s) != 0 && colors[probe(
                        slots,
                        color,
                        s,
                    ) - 1] != color,
            ensures
                *self == *old(self),
                0 <= step < len,
                slot == wrap(home, step, len),
                slot < len,
                finds(slots, color, step, 0),
                forall|s: int|
                    0 <= s < step ==> #[trigger] probe(slots, color, s) != 0 && colors[probe(
                        slots,
                        color,
                        s,
                    ) - 1] != color,
            decreases len - step,
        {
            let held: u32 = self.slots[slot];
            assert(held == probe(slots, color, step));
            if held == 0 {
                break ;
            }
            assert(held <= colors.len());
            if self.colors[held as usize - 1] == color {
                assert(colors.contains(color)) by {
                    assert(colors[held - 1] == color);
                }
                return held - 1;
            }
            proof {
                if step + 1 == len {
                    let s = choose|s: int| 0 <= s < len && #[trigger] probe(slots, color, s) == 0;
                    assert(s == step);
                }
            }
            slot = next_slot(slot, self.slots.len());
            proof {
                step = step + 1;
            }
        }
        proof {
            if colors.contains(color) {
                let i = choose|i: int| 0 <= i < colors.len() && colors[i] == color;
                assert(found(slots, colors, i));
                let s = choose|s: int| #[trigger] finds(slots, colors[i], s, i + 1);
                assert(finds(slots, color, s, i + 1));
                if s < step {
                    assert(probe(slots, color, s) == i + 1);
                } else if s > step {
                    assert(probe(slots, color, step) != 0);
                }
                assert(false);
            }
            assert(colors.push(color).no_duplicates()) by {
                let more = colors.push(color);
                assert forall|i: int, j: int|
                    0 <= i < more.len() && 0 <= j < more.len() && i != j implies more[i]
                    != more[j] by {
                    if i == colors.len() {
                        assert(colors.contains(more[j]));
                    } else if j == colors.len() {
                        assert(colors.contains(more[i]));
                    }
                }
            }
            distinct_colors_bound(colors.push(color));
            let more = colors.push(color);
            assert(indexes(slots, more, colors.len() as int)) by {
                assert forall|i: int| 0 <= i < colors.len() implies #[trigger] found(
                    slots,
                    more,
                    i,
                ) by {
                    assert(found(slots, colors, i));
                    let s = choose|s: int| #[trigger] finds(slots, colors[i], s, i + 1);
                    assert(finds(slots, more[i], s, i + 1));
                }
            }
            assert(more[colors.len() as int] == color);
            placed(slots, more, colors.len() as int, step);
            free_slot_is(slots, color, step);
            filled_by_the_first(colors, more, colors.len(), slots.len());
        }
        let index: u32 = self.colors.len() as u32;
        self.slots[slot] = index + 1;
        self.colors.push(color);
        self.counts.push(0);
        assert(indexes(self.slots@, self.colors@, self.colors@.len() as int));
        if self.colors.len() * 2 > self.slots.len() {
            self.grow();
        }
        index
    }

    /// Count one more pixel, of the color `index`.
    pub fn count_pixel(&mut self, index: u32)
        requires
            old(self).well_formed(),
            index < old(self).counts@.len(),
            old(self).counts@[index as int] < u32::MAX,
        ensures
            final(self).well_formed(),
            final(self).slots@ == old(self).slots@,
            final(self).colors@ == old(self).colors@,
            final(self).counts@ == old(self).counts@.update(
                index as int,
                (old(self).counts@[index as int] + 1) as u32,
            ),
            final(self).pixels@ == old(self).pixels@.push(index),
    {
        let count: u32 = self.counts[index as usize];
        self.counts[index as usize] = count + 1;
        self.pixels.push(index);
    }

    /// Double the slots and put every color back.
    fn grow(&mut self)
        requires
            vstd::arithmetic::power2::is_pow2(old(self).slots@.len() as int),
            2 * old(self).slots@.len() <= 0x1_0000_0000,
            2 * old(self).slots@.len() <= usize::MAX,
            old(self).colors@.len() <= old(self).slots@.len(),
            old(self).colors@.no_duplicates(),
        ensures
            final(self).slots@.len() == 2 * old(self).slots@.len(),
            final(self).slots@ == filled(
                old(self).colors@,
                old(self).colors@.len(),
                2 * old(self).slots@.len(),
            ),
            indexes(final(self).slots@, final(self).colors@, final(self).colors@.len() as int),
            final(self).colors@ == old(self).colors@,
            final(self).counts@ == old(self).counts@,
            final(self).pixels@ == old(self).pixels@,
    {
        let ghost colors = self.colors@;
        let len: usize = self.slots.len() * 2;
        proof {
            reveal(vstd::arithmetic::power2::is_pow2);
            distinct_colors_bound(colors);
        }
        self.slots.clear();
        self.slots.resize(len, 0);
        let mut index: usize = 0;
        assert(self.slots@ =~= filled(colors, 0, len as nat));
        assert(indexes(self.slots@, colors, 0));
        while index < self.colors.len()
            invariant
                index <= colors.len(),
                colors.len() <= COLOR_COUNT,
                colors.no_duplicates(),
                0 < len,
                2 * colors.len() <= len,
                self.colors@ == colors,
                self.counts@ == old(self).counts@,
                self.pixels@ == old(self).pixels@,
                self.slots@.len() == len,
                self.slots@ == filled(colors, index as nat, len as nat),
                indexes(self.slots@, colors, index as int),
            decreases colors.len() - index,
        {
            let color: Rgb = self.colors[index];
            proof {
                search_ends(self.slots@, colors, index as int, color);
                home_slot_is_a_slot(color, len as int);
            }
            let ghost slots = self.slots@;
            let ghost home = home_slot(color, len as int);
            let ghost mut step: int = 0;
            let mut slot: usize = self.slot_of(color);
            while self.slots[slot] != 0
                invariant
                    self.slots@ == slots,
                    self.colors@ == colors,
                    self.counts@ == old(self).counts@,
                    self.pixels@ == old(self).pixels@,
                    slots.len() == len,
                    home == home_slot(color, len as int),
                    0 <= home < len,
                    0 <= step < len,
                    slot == wrap(home, step, len as int),
                    slot < len,
                    exists|s: int| 0 <= s < len && #[trigger] probe(slots, color, s) == 0,
                    forall|s: int| 0 <= s < step ==> #[trigger] probe(slots, color, s) != 0,
                decreases len - step,
            {
                assert(probe(slots, color, step) != 0);
                proof {
                    if step + 1 == len {
                        let s = choose|s: int|
                            0 <= s < len && #[trigger] probe(slots, color, s) == 0;
                        assert(s == step);
                    }
                }
                slot = next_slot(slot, len);
                proof {
                    step = step + 1;
                }
            }
            proof {
                assert(probe(slots, color, step) == 0);
                assert(finds(slots, colors[index as int], step, 0));
                placed(slots, colors, index as int, step);
                free_slot_is(slots, color, step);
            }
            self.slots[slot] = (index + 1) as u32;
            index += 1;
        }
    }

    /// The first slot to try for `color`.
    fn slot_of(&self, color: Rgb) -> (slot: usize)
        requires
            vstd::arithmetic::power2::is_pow2(self.slots@.len() as int),
            1 <= self.slots@.len() <= 0x1_0000_0000,
        ensures
            slot == home_slot(color, self.slots@.len() as int),
            slot < self.slots@.len(),
    {
        fibonacci_slot([color.r, color.g, color.b], self.slots.len())
    }
}

/// What the table promises: a power of two of at least [`MIN_COUNTED_SLOTS`]
/// slots, of which at most half hold a color and one is empty. Each index from 1
/// to the number of colors is in one slot and nothing else is in any, no color
/// occurs twice, and each has a count.
pub proof fn the_table_keeps_its_promises(counted: Counted)
    requires
        counted.well_formed(),
    ensures
        vstd::arithmetic::power2::is_pow2(counted.slots@.len() as int),
        MIN_COUNTED_SLOTS <= counted.slots@.len(),
        2 * counted.colors@.len() <= counted.slots@.len(),
        counted.slots@.contains(0),
        forall|value: u32|
            1 <= value <= counted.colors@.len() ==> #[trigger] counted.slots@.contains(value),
        forall|p: int|
            0 <= p < counted.slots@.len() ==> #[trigger] counted.slots@[p] <= counted.colors@.len(),
        forall|p: int, q: int|
            0 <= p < q < counted.slots@.len() && counted.slots@[p] != 0
                ==> #[trigger] counted.slots@[p] != #[trigger] counted.slots@[q],
        counted.colors@.no_duplicates(),
        counted.counts@.len() == counted.colors@.len(),
{
    let slots = counted.slots@;
    let colors = counted.colors@;
    let len = slots.len() as int;
    let any = Rgb { r: 0, g: 0, b: 0 };
    search_ends(slots, colors, colors.len() as int, any);
    let free = choose|step: int| 0 <= step < len && #[trigger] probe(slots, any, step) == 0;
    home_slot_is_a_slot(any, len);
    assert(slots[wrap(home_slot(any, len), free, len)] == 0);
    assert forall|value: u32| 1 <= value <= colors.len() implies #[trigger] slots.contains(
        value,
    ) by {
        let k = value - 1;
        assert(found(slots, colors, k));
        let step = choose|step: int| #[trigger] finds(slots, colors[k], step, k + 1);
        home_slot_is_a_slot(colors[k], len);
        assert(slots[wrap(home_slot(colors[k], len), step, len)] == value);
    }
}

} // verus!
