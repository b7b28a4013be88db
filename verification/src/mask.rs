//! A compact mask with one bit per element.

use vstd::prelude::*;

verus! {

/// A compact 1-bit-per-element mask backed by `u64` words.
///
/// Uses 1/8 the memory of a `Vec<bool>`, which improves cache behavior in the
/// per-color band-encoding loop that re-reads the opacity mask many times.
#[derive(Clone, Debug)]
pub struct BitMask {
    words: Vec<u64>,
}

/// Bit `index` of `word`, counted from the lowest.
pub open spec fn word_bit(word: u64, index: int) -> bool {
    (word >> (index as u64)) & 1 != 0
}

impl View for BitMask {
    type V = Seq<bool>;

    /// The bits of the mask. The length is a multiple of 64.
    closed spec fn view(&self) -> Seq<bool> {
        Seq::new(
            self.words@.len() * 64,
            |i: int| word_bit(self.words@[i / 64], i % 64),
        )
    }
}

/// The number of 64-bit words that hold `len` bits.
pub open spec fn word_count(len: int) -> int {
    (len + 63) / 64
}

impl Default for BitMask {
    /// A mask without bits.
    fn default() -> (mask: Self)
        ensures
            mask@ == Seq::<bool>::empty(),
    {
        BitMask { words: Vec::new() }
    }
}

impl BitMask {
    /// Create a mask with `len` bits, all cleared.
    pub fn zeros(len: usize) -> (mask: Self)
        ensures
            mask@ == Seq::new((64 * word_count(len as int)) as nat, |i: int| false),
    {
        let mut mask = Self::default();
        mask.reset(len);
        mask
    }

    /// Clear every bit and give the mask `len` bits, keeping the allocation.
    pub fn reset(&mut self, len: usize)
        ensures
            final(self)@ == Seq::new((64 * word_count(len as int)) as nat, |i: int| false),
    {
        let count: usize = len / 64 + if len % 64 == 0 { 0 } else { 1 };
        self.words.clear();
        self.words.resize(count, 0);
        assert forall|i: int| 0 <= i < self.words@.len() * 64 implies !(#[trigger] self@[i]) by {
            assert(self.words@[i / 64] == 0);
            let shift = (i % 64) as u64;
            assert((0u64 >> shift) & 1 == 0) by (bit_vector);
        }
    }

    /// Set the bit at `index` to 1.
    #[inline]
    pub fn set(&mut self, index: usize)
        requires
            index < old(self)@.len(),
        ensures
            final(self)@ == old(self)@.update(index as int, true),
    {
        let word: usize = index >> 6;
        let bit: usize = index & 63;
        assert(word == index / 64 && bit == index % 64) by {
            assert(index >> 6 == index / 64) by (bit_vector);
            assert(index & 63 == index % 64) by (bit_vector);
        }
        let old_word: u64 = self.words[word];
        let new_word: u64 = old_word | (1u64 << bit);
        self.words[word] = new_word;
        assert forall|i: int| 0 <= i < self@.len() implies self@[i] == old(self)@.update(
            index as int,
            true,
        )[i] by {
            if i / 64 == word {
                let at = (i % 64) as u64;
                let shift = bit as u64;
                assert(new_word == old_word | (1u64 << shift));
                assert(at == shift ==> ((old_word | (1u64 << shift)) >> at) & 1 != 0) by (bit_vector)
                    requires shift < 64;
                assert(at != shift ==> ((old_word | (1u64 << shift)) >> at) & 1 == (old_word >> at) & 1)
                    by (bit_vector)
                    requires shift < 64, at < 64;
            }
        }
    }

    /// Returns `true` if the first `len` bits are set, `false` otherwise.
    ///
    /// A `len` past the end of the mask is answered only where a cleared bit
    /// settles it.
    pub fn is_full(&self, len: usize) -> (full: bool)
        requires
            len < self@.len() + 64,
            len <= self@.len() || exists|i: int| 0 <= i < self@.len() && !self@[i],
        ensures
            full == (len <= self@.len() && forall|i: int| 0 <= i < len ==> self@[i]),
    {
        let words: usize = len / 64;
        let tail: usize = len % 64;
        let mut at: usize = 0;
        while at < words
            invariant
                words == len / 64,
                words <= self.words@.len(),
                at <= words,
                forall|i: int| 0 <= i < 64 * at ==> self@[i],
            decreases words - at,
        {
            let word: u64 = self.words[at];
            if word != u64::MAX {
                proof {
                    let shift = clear_bit(word, 64);
                    assert(!self@[64 * at + shift]);
                }
                return false;
            }
            assert forall|i: int| 64 * at <= i < 64 * at + 64 implies self@[i] by {
                let shift = (i % 64) as u64;
                assert(word == u64::MAX && shift < 64 ==> (word >> shift) & 1 != 0) by (bit_vector);
            }
            at += 1;
        }
        if tail == 0 {
            return true;
        }
        assert(tail < 64 ==> 1u64 << tail >= 1) by (bit_vector);
        let low: u64 = (1u64 << tail) - 1;
        let word: u64 = self.words[words];
        proof {
            let shift = tail as u64;
            if word & low == low {
                assert forall|i: int| 64 * words <= i < len implies self@[i] by {
                    let at = (i % 64) as u64;
                    assert((word >> at) & 1 != 0) by (bit_vector)
                        requires
                            shift < 64,
                            at < shift,
                            low == (1u64 << shift) - 1,
                            word & low == low,
                    ;
                }
            } else {
                let at = clear_bit(word, shift);
                assert(!self@[64 * words + at]);
            }
        }
        word & low == low
    }

    /// Return whether the bit at `index` is set.
    #[inline]
    pub fn get(&self, index: usize) -> (bit: bool)
        requires
            index < self@.len(),
        ensures
            bit == self@[index as int],
    {
        assert(index >> 6 == index / 64) by (bit_vector);
        assert(index & 63 == index % 64) by (bit_vector);
        (self.words[index >> 6] >> (index & 63)) & 1 != 0
    }
}

/// A word with a cleared bit among its lowest `len` has one to point at.
proof fn clear_bit(word: u64, len: u64) -> (at: u64)
    requires
        0 < len <= 64,
        len == 64 ==> word != u64::MAX,
        len < 64 ==> word & ((1u64 << len) - 1) as u64 != ((1u64 << len) - 1) as u64,
    ensures
        at < len,
        (word >> at) & 1 == 0,
    decreases len,
{
    let last = (len - 1) as u64;
    if (word >> last) & 1 == 0 {
        last
    } else {
        assert(len == 1 ==> false) by (bit_vector)
            requires
                0 < len <= 64,
                len < 64 ==> word & ((1u64 << len) - 1) as u64 != ((1u64 << len) - 1) as u64,
                (word >> last) & 1 != 0,
                last == len - 1,
        ;
        assert(word & ((1u64 << last) - 1) as u64 != ((1u64 << last) - 1) as u64) by (bit_vector)
            requires
                1 < len <= 64,
                len == 64 ==> word != u64::MAX,
                len < 64 ==> word & ((1u64 << len) - 1) as u64 != ((1u64 << len) - 1) as u64,
                (word >> last) & 1 != 0,
                last == len - 1,
        ;
        clear_bit(word, last)
    }
}

} // verus!
