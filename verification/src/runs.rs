//! Runs of equal pixels, and runs of equal sixels.

use crate::codes::{EMPTY_SIXEL, REPEAT};
use crate::mask::BitMask;
use crate::number::write_number;
use crate::types::SIXEL_REPEAT_MAX;
use vstd::prelude::*;

verus! {

/// The palette index of pixel `i`, or `None` if the pixel is transparent.
/// Without an `opacity` every pixel is opaque.
pub open spec fn pixel_at(indices: Seq<u8>, opacity: Option<Seq<bool>>, i: int) -> Option<u8> {
    match opacity {
        Some(mask) if !mask[i] => None,
        _ => Some(indices[i]),
    }
}

/// The bits of the mask, if there is one.
pub open spec fn opacity_view(opacity: Option<&BitMask>) -> Option<Seq<bool>> {
    match opacity {
        Some(mask) => Some(mask@),
        None => None,
    }
}

/// Whether the mask reaches to pixel `to`, and every opaque pixel from `from` on
/// before it has an index.
pub open spec fn covers(
    indices: Seq<u8>,
    opacity: Option<Seq<bool>>,
    from: int,
    to: int,
) -> bool {
    match opacity {
        Some(mask) => {
            &&& to <= mask.len()
            &&& forall|i: int| from <= i < to && mask[i] ==> i < indices.len()
        },
        None => to <= indices.len(),
    }
}

/// The run that starts at column `x` of the row that starts at pixel
/// `first`, as the column after it and its index. A run holds opaque pixels
/// of one index, or transparent pixels, which have `None` for an index and
/// may have no entry in `indices`. `opacity` is `None` when every pixel is
/// opaque, which spares the mask lookup.
pub fn run_at(
    indices: &[u8],
    opacity: Option<&BitMask>,
    first: usize,
    x: usize,
    width: usize,
) -> (run: (usize, Option<u8>))
    requires
        x < width,
        first + width <= usize::MAX,
        covers(indices@, opacity_view(opacity), first + x, first + width),
    ensures
        x < run.0 <= width,
        run.1 == pixel_at(indices@, opacity_view(opacity), first + x),
        forall|i: int|
            x <= i < run.0 ==> #[trigger] pixel_at(indices@, opacity_view(opacity), first + i)
                == run.1,
        run.0 < width ==> pixel_at(indices@, opacity_view(opacity), first + run.0) != run.1,
{
    let mut end: usize = x + 1;
    match opacity {
        Some(mask) => {
            if !mask.get(first + x) {
                while end < width && !mask.get(first + end)
                    invariant
                        opacity == Some(mask),
                        x < end <= width,
                        first + width <= usize::MAX,
                        covers(indices@, opacity_view(opacity), first + x, first + width),
                        forall|i: int|
                            x <= i < end ==> #[trigger] pixel_at(
                                indices@,
                                opacity_view(opacity),
                                first + i,
                            ) is None,
                    decreases width - end,
                {
                    end += 1;
                }
                (end, None)
            } else {
                let index: u8 = indices[first + x];
                while end < width && mask.get(first + end) && indices[first + end] == index
                    invariant
                        opacity == Some(mask),
                        x < end <= width,
                        first + width <= usize::MAX,
                        covers(indices@, opacity_view(opacity), first + x, first + width),
                        forall|i: int|
                            x <= i < end ==> #[trigger] pixel_at(
                                indices@,
                                opacity_view(opacity),
                                first + i,
                            ) == Some(index),
                    decreases width - end,
                {
                    end += 1;
                }
                (end, Some(index))
            }
        },
        None => {
            let index: u8 = indices[first + x];
            while end < width && indices[first + end] == index
                invariant
                    opacity is None,
                    x < end <= width,
                    first + width <= usize::MAX,
                    covers(indices@, opacity_view(opacity), first + x, first + width),
                    forall|i: int|
                        x <= i < end ==> #[trigger] pixel_at(
                            indices@,
                            opacity_view(opacity),
                            first + i,
                        ) == Some(index),
                decreases width - end,
            {
                end += 1;
            }
            (end, Some(index))
        },
    }
}

/// The length of the run of equal sixels at the start of `sixels`, which stops
/// at `most`.
pub open spec fn run_length(sixels: Seq<u8>, most: nat) -> nat
    decreases most,
{
    if sixels.len() == 0 || most == 0 {
        0
    } else if sixels.len() == 1 || most == 1 || sixels[1] != sixels[0] {
        1
    } else {
        1 + run_length(sixels.skip(1), (most - 1) as nat)
    }
}

/// The bytes of `count` sixels of the value `bits`.
pub open spec fn run_bytes(count: nat, bits: u8) -> Seq<u8> {
    let sixel = (EMPTY_SIXEL + bits) as u8;
    if count > 3 {
        seq![REPEAT] + crate::number::decimal(count) + seq![sixel]
    } else {
        Seq::new(count, |i: int| sixel)
    }
}

/// The bytes of `sixels`, with each run of equal sixels as one.
pub open spec fn run_length_encoded(sixels: Seq<u8>) -> Seq<u8>
    decreases sixels.len(),
{
    if sixels.len() == 0 {
        Seq::empty()
    } else {
        let count = run_length(sixels, SIXEL_REPEAT_MAX as nat);
        if 0 < count <= sixels.len() {
            run_bytes(count, sixels[0]) + run_length_encoded(sixels.skip(count as int))
        } else {
            Seq::empty()
        }
    }
}

/// `len` empty sixels.
pub open spec fn blanks(len: nat) -> Seq<u8> {
    Seq::new(len, |i: int| 0u8)
}

/// A run is not empty, stays within the sixels and the limit, and holds one
/// value.
pub proof fn run_length_is_a_run(sixels: Seq<u8>, most: nat)
    requires
        sixels.len() > 0,
        most > 0,
    ensures
        0 < run_length(sixels, most) <= sixels.len(),
        run_length(sixels, most) <= most,
        forall|i: int| 0 <= i < run_length(sixels, most) ==> #[trigger] sixels[i] == sixels[0],
    decreases most,
{
    if !(sixels.len() == 1 || most == 1 || sixels[1] != sixels[0]) {
        run_length_is_a_run(sixels.skip(1), (most - 1) as nat);
        assert forall|i: int| 0 <= i < run_length(sixels, most) implies #[trigger] sixels[i]
            == sixels[0] by {
            if i > 0 {
                assert(sixels.skip(1)[i - 1] == sixels.skip(1)[0]);
            }
        }
    }
}

/// The run at the start of `sixels` has `count` sixels if they are equal and
/// the next one, if there is one and the limit admits it, is not.
pub proof fn run_length_is(sixels: Seq<u8>, most: nat, count: nat)
    requires
        0 < count <= sixels.len(),
        count <= most,
        forall|i: int| 0 <= i < count ==> #[trigger] sixels[i] == sixels[0],
        count == most || count == sixels.len() || sixels[count as int] != sixels[0],
    ensures
        run_length(sixels, most) == count,
    decreases most,
{
    if count > 1 {
        assert(sixels[1] == sixels[0]);
        let rest = sixels.skip(1);
        assert(rest[0] == sixels[0]);
        assert forall|i: int| 0 <= i < count - 1 implies #[trigger] rest[i] == rest[0] by {
            assert(rest[i] == sixels[i + 1]);
        }
        run_length_is(rest, (most - 1) as nat, (count - 1) as nat);
    }
}

/// Empty sixels before one that is not are a run of their own.
proof fn blanks_stand_alone(len: nat, sixels: Seq<u8>)
    requires
        sixels.len() > 0,
        sixels[0] != 0,
    ensures
        run_length_encoded(blanks(len) + sixels) == run_length_encoded(blanks(len))
            + run_length_encoded(sixels),
    decreases len,
{
    let whole = blanks(len) + sixels;
    if len == 0 {
        assert(whole =~= sixels);
        assert(run_length_encoded(blanks(len)) =~= Seq::<u8>::empty());
    } else {
        let most = SIXEL_REPEAT_MAX as nat;
        let count = if len < most { len } else { most };
        run_length_is(whole, most, count);
        run_length_is(blanks(len), most, count);
        assert(whole.skip(count as int) =~= blanks((len - count) as nat) + sixels);
        assert(blanks(len).skip(count as int) =~= blanks((len - count) as nat));
        blanks_stand_alone((len - count) as nat, sixels);
        let first = run_bytes(count, 0);
        assert(run_length_encoded(whole) =~= first + (run_length_encoded(
            blanks((len - count) as nat),
        ) + run_length_encoded(sixels)));
        assert(run_length_encoded(blanks(len)) == first + run_length_encoded(
            blanks((len - count) as nat),
        ));
    }
}

/// Append a run of `count` sixels of the value `bits`.
fn write_run(out: &mut Vec<u8>, count: usize, bits: u8)
    requires
        bits < 64,
    ensures
        final(out)@ == old(out)@ + run_bytes(count as nat, bits),
{
    let sixel: u8 = EMPTY_SIXEL + bits;
    let ghost start = out@;
    if count > 3 {
        out.push(REPEAT);
        write_number(out, count);
        out.push(sixel);
        assert(out@ =~= start + run_bytes(count as nat, bits));
    } else {
        let mut written: usize = 0;
        while written < count
            invariant
                written <= count,
                out@ == start + Seq::new(written as nat, |i: int| sixel),
            decreases count - written,
        {
            out.push(sixel);
            written += 1;
            assert(out@ =~= start + Seq::new(written as nat, |i: int| sixel));
        }
        assert(out@ =~= start + run_bytes(count as nat, bits));
    }
}

/// Write `len` empty sixels.
pub fn write_empty_run(out: &mut Vec<u8>, len: usize)
    ensures
        final(out)@ == old(out)@ + run_length_encoded(blanks(len as nat)),
{
    let ghost start = out@;
    let mut rest: usize = len;
    assert(start + run_length_encoded(blanks(len as nat)) =~= out@ + run_length_encoded(
        blanks(rest as nat),
    ));
    while rest > 0
        invariant
            start + run_length_encoded(blanks(len as nat)) == out@ + run_length_encoded(
                blanks(rest as nat),
            ),
        decreases rest,
    {
        let run: usize = if rest < SIXEL_REPEAT_MAX { rest } else { SIXEL_REPEAT_MAX };
        let ghost before = out@;
        proof {
            run_length_is(blanks(rest as nat), SIXEL_REPEAT_MAX as nat, run as nat);
            assert(blanks(rest as nat).skip(run as int) =~= blanks((rest - run) as nat));
        }
        write_run(out, run, 0);
        rest -= run;
        assert(out@ + run_length_encoded(blanks(rest as nat)) =~= before + (run_bytes(
            run as nat,
            0,
        ) + run_length_encoded(blanks(rest as nat))));
    }
    assert(out@ + run_length_encoded(blanks(0)) =~= out@);
}

/// The length of the run of equal sixels at column `x` of `row`, which stops at
/// column `end`.
fn sixel_run(row: &[u8], x: usize, end: usize) -> (run: usize)
    requires
        x < end <= row@.len(),
    ensures
        run == run_length(row@.subrange(x as int, end as int), SIXEL_REPEAT_MAX as nat),
{
    let bits: u8 = row[x];
    let mut run: usize = 1;
    while run < SIXEL_REPEAT_MAX && run < end - x && row[x + run] == bits
        invariant
            x < end <= row@.len(),
            1 <= run <= end - x,
            run <= SIXEL_REPEAT_MAX,
            forall|i: int| x <= i < x + run ==> row@[i] == bits,
        decreases end - x - run,
    {
        run += 1;
    }
    proof {
        let rest = row@.subrange(x as int, end as int);
        assert forall|i: int| 0 <= i < run implies #[trigger] rest[i] == rest[0] by {
            assert(rest[i] == row@[x + i]);
        }
        run_length_is(rest, SIXEL_REPEAT_MAX as nat, run as nat);
    }
    run
}

/// Write the sixels of `row` up to column `end`. The columns before `start` are
/// empty, and the one at `start` is not.
pub(crate) fn write_sixels(out: &mut Vec<u8>, row: &[u8], start: usize, end: usize)
    requires
        start < end <= row@.len(),
        forall|x: int| 0 <= x < start ==> row@[x] == 0,
        row@[start as int] != 0,
        forall|x: int| 0 <= x < end ==> row@[x] < 64,
    ensures
        final(out)@ == old(out)@ + run_length_encoded(row@.take(end as int)),
{
    let ghost base = out@;
    let ghost sixels = row@.take(end as int);
    write_empty_run(out, start);
    let mut x: usize = start;
    proof {
        assert(sixels =~= blanks(start as nat) + sixels.skip(start as int));
        blanks_stand_alone(start as nat, sixels.skip(start as int));
        assert(base + run_length_encoded(sixels) =~= out@ + run_length_encoded(
            sixels.skip(x as int),
        ));
    }
    while x < end
        invariant
            start <= x <= end <= row@.len(),
            sixels == row@.take(end as int),
            forall|i: int| 0 <= i < end ==> row@[i] < 64,
            base + run_length_encoded(sixels) == out@ + run_length_encoded(sixels.skip(x as int)),
        decreases end - x,
    {
        let bits: u8 = row[x];
        let run: usize = sixel_run(row, x, end);
        let ghost before = out@;
        proof {
            let rest = sixels.skip(x as int);
            assert(rest =~= row@.subrange(x as int, end as int));
            run_length_is_a_run(rest, SIXEL_REPEAT_MAX as nat);
            assert(rest.skip(run as int) =~= sixels.skip(x + run));
        }
        write_run(out, run, bits);
        x += run;
        assert(out@ + run_length_encoded(sixels.skip(x as int)) =~= before + (run_bytes(
            run as nat,
            bits,
        ) + run_length_encoded(sixels.skip(x as int))));
    }
    assert(sixels.skip(end as int) =~= Seq::<u8>::empty());
    assert(out@ + run_length_encoded(sixels.skip(end as int)) =~= out@);
}

} // verus!
