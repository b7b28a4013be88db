//! Numbers in decimal.

use crate::codes::DIGIT_ZERO;
use vstd::prelude::*;

verus! {

/// The ASCII digit of `n`, which is below 10.
pub open spec fn digit(n: nat) -> u8 {
    (DIGIT_ZERO + n) as u8
}

/// `n` in decimal, without leading zeros.
pub open spec fn decimal(n: nat) -> Seq<u8>
    decreases n,
{
    if n < 10 {
        seq![digit(n)]
    } else {
        decimal(n / 10).push(digit(n % 10))
    }
}

/// The number that a string of decimal digits stands for.
pub open spec fn number_of(digits: Seq<u8>) -> nat
    decreases digits.len(),
{
    if digits.len() == 0 {
        0
    } else {
        number_of(digits.drop_last()) * 10 + (digits.last() - DIGIT_ZERO) as nat
    }
}

/// Whether `byte` is an ASCII digit.
pub open spec fn is_digit(byte: u8) -> bool {
    DIGIT_ZERO <= byte <= DIGIT_ZERO + 9
}

/// The decimal form of a number holds digits alone, at least one of them, and
/// reads back as the number.
pub proof fn decimal_reads_back(n: nat)
    ensures
        decimal(n).len() > 0,
        forall|i: int| 0 <= i < decimal(n).len() ==> is_digit(#[trigger] decimal(n)[i]),
        number_of(decimal(n)) == n,
    decreases n,
{
    if n < 10 {
        assert(decimal(n).drop_last() =~= Seq::<u8>::empty());
        assert(number_of(decimal(n).drop_last()) == 0);
    } else {
        decimal_reads_back(n / 10);
        assert(decimal(n).drop_last() =~= decimal(n / 10));
    }
}

/// The power of 10 that `digits` digits stay below.
spec fn pow10(digits: nat) -> nat
    decreases digits,
{
    if digits == 0 {
        1
    } else {
        10 * pow10((digits - 1) as nat)
    }
}

/// Append `n` in decimal.
#[inline]
pub fn write_number(out: &mut Vec<u8>, n: usize)
    ensures
        final(out)@ == old(out)@ + decimal(n as nat),
{
    if n == 0 {
        out.push(DIGIT_ZERO);
        return;
    }
    let mut buf: [u8; 20] = [0u8; 20];
    let mut i: usize = 20;
    let mut rest: usize = n;
    proof {
        reveal_with_fuel(pow10, 21);
        assert(buf@.subrange(20, 20) =~= Seq::<u8>::empty());
        assert(decimal(n as nat) + Seq::<u8>::empty() =~= decimal(n as nat));
    }
    while rest > 0
        invariant
            i <= 20,
            rest < pow10(i as nat),
            rest > 0 ==> decimal(n as nat) == decimal(rest as nat) + buf@.subrange(i as int, 20),
            rest == 0 ==> decimal(n as nat) == buf@.subrange(i as int, 20),
        decreases rest,
    {
        let ghost before = buf@.subrange(i as int, 20);
        i -= 1;
        buf[i] = DIGIT_ZERO + (rest % 10) as u8;
        proof {
            assert(buf@.subrange(i as int, 20) =~= seq![digit((rest % 10) as nat)] + before);
            if rest >= 10 {
                assert(decimal(rest as nat) + before =~= decimal((rest / 10) as nat) + (seq![
                    digit((rest % 10) as nat),
                ] + before));
            }
        }
        rest /= 10;
    }
    let ghost start = out@;
    let ghost digits = buf@.subrange(i as int, 20);
    let ghost first = i as int;
    while i < 20
        invariant
            0 <= first <= i <= 20,
            digits == buf@.subrange(first, 20),
            out@ == start + digits.take(i - first),
        decreases 20 - i,
    {
        out.push(buf[i]);
        i += 1;
        assert(out@ =~= start + digits.take(i - first));
    }
    assert(digits.take(20 - first) =~= digits);
}

} // verus!
