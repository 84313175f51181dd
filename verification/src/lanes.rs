//! Sixteen-lane comparison masks: one bit per score, set where the score beats
//! a threshold.
use crate::single::Single;
use vstd::arithmetic::power2::pow2;
use vstd::prelude::*;

verus! {

/// Whether lane `l` of `mask` is set.
pub open spec fn lane(mask: u16, l: int) -> bool {
    0 <= l < 16 && (mask >> (l as u16)) & 1 == 1
}

/// How many sixteen-lane masks hold one bit for each of `n` scores.
pub open spec fn mask_words(n: int) -> int {
    (n + 15) / 16
}

/// Bit mask selecting the low `len` lanes of a 16-wide vector.
pub fn low_lanes(len: usize) -> (mask: u16)
    ensures
        forall|l: int| 0 <= l < 16 ==> #[trigger] lane(mask, l) == (l < len),
{
    if len >= 16 {
        assert forall|l: int| 0 <= l < 16 implies #[trigger] lane(u16::MAX, l) by {
            let s = l as u16;
            assert((0xffffu16 >> s) & 1 == 1) by (bit_vector)
                requires
                    s < 16,
            ;
        }
        u16::MAX
    } else {
        let shift: u32 = len as u32;
        assert(1 <= (1u32 << shift) <= 0x8000) by (bit_vector)
            requires
                shift < 16,
        ;
        let mask: u16 = ((1u32 << shift) - 1) as u16;
        assert forall|l: int| 0 <= l < 16 implies #[trigger] lane(mask, l) == (l < len) by {
            let s = l as u16;
            assert(((((1u32 << shift) - 1) as u16 >> s) & 1 == 1) <==> s < shift) by (bit_vector)
                requires
                    shift < 16,
                    s < 16,
            ;
        }
        mask
    }
}

/// Lanes of a `width`-wide column strip starting at node `first_col` whose
/// column index is strictly greater than `row`.
pub fn lanes_above(row: usize, first_col: usize, width: usize) -> (mask: u16)
    requires
        row < usize::MAX,
    ensures
        forall|l: int|
            0 <= l < 16 ==> #[trigger] lane(mask, l) == (l < width && first_col + l > row),
{
    let skip: usize = if row + 1 > first_col {
        row + 1 - first_col
    } else {
        0
    };
    if skip >= width {
        assert forall|l: int| 0 <= l < 16 implies !#[trigger] lane(0, l) by {
            let s = l as u16;
            assert((0u16 >> s) & 1 == 0) by (bit_vector);
        }
        0
    } else {
        let wide = low_lanes(width);
        let skipped = low_lanes(skip);
        assert forall|l: int| 0 <= l < 16 implies #[trigger] lane(wide & !skipped, l) == (lane(
            wide,
            l,
        ) && !lane(skipped, l)) by {
            lemma_lane_and_not(wide, skipped, l as u16);
        }
        wide & !skipped
    }
}

proof fn lemma_lane_and_not(a: u16, b: u16, s: u16)
    by (bit_vector)
    requires
        s < 16,
    ensures
        (((a & !b) >> s) & 1 == 1) <==> ((a >> s) & 1 == 1 && !((b >> s) & 1 == 1)),
{
}

pub proof fn lemma_lane_and(a: u16, b: u16)
    ensures
        forall|l: int| 0 <= l < 16 ==> #[trigger] lane(a & b, l) == (lane(a, l) && lane(b, l)),
{
    assert forall|l: int| 0 <= l < 16 implies #[trigger] lane(a & b, l) == (lane(a, l) && lane(
        b,
        l,
    )) by {
        let s = l as u16;
        assert((((a & b) >> s) & 1 == 1) <==> ((a >> s) & 1 == 1 && (b >> s) & 1 == 1))
            by (bit_vector);
    }
}

/// `mask` with lane `l` set.
fn with_lane(mask: u16, l: usize) -> (r: u16)
    requires
        l < 16,
    ensures
        forall|j: int| 0 <= j < 16 ==> #[trigger] lane(r, j) == (lane(mask, j) || j == l),
{
    let s: u16 = l as u16;
    let r: u16 = mask | (1u16 << s);
    assert forall|j: int| 0 <= j < 16 implies #[trigger] lane(r, j) == (lane(mask, j) || j == l) by {
        let t = j as u16;
        assert((((mask | (1u16 << s)) >> t) & 1 == 1) <==> ((mask >> t) & 1 == 1 || t == s))
            by (bit_vector)
            requires
                s < 16,
                t < 16,
        ;
    }
    r
}

/// `mask` with lane `l` cleared.
pub fn without_lane(mask: u16, l: usize) -> (r: u16)
    requires
        l < 16,
    ensures
        forall|j: int| 0 <= j < 16 ==> #[trigger] lane(r, j) == (lane(mask, j) && j != l),
{
    let s: u16 = l as u16;
    let r: u16 = mask & !(1u16 << s);
    assert forall|j: int| 0 <= j < 16 implies #[trigger] lane(r, j) == (lane(mask, j) && j != l) by {
        let t = j as u16;
        assert((((mask & !(1u16 << s)) >> t) & 1 == 1) <==> ((mask >> t) & 1 == 1 && t != s))
            by (bit_vector)
            requires
                s < 16,
                t < 16,
        ;
    }
    r
}

/// Splits the lowest set lane off a mask: its index, and the mask without it.
pub fn pop_lane(mask: u16) -> (r: (usize, u16))
    requires
        mask != 0,
    ensures
        r.0 < 16,
        lane(mask, r.0 as int),
        forall|j: int| 0 <= j < r.0 ==> !#[trigger] lane(mask, j),
        forall|j: int| 0 <= j < 16 ==> #[trigger] lane(r.1, j) == (lane(mask, j) && j != r.0),
        r.1 < mask,
{
    proof {
        vstd::std_specs::bits::axiom_u16_trailing_zeros(mask);
    }
    let l: u32 = mask.trailing_zeros();
    let s: u16 = l as u16;
    let rest: u16 = mask & (mask - 1);
    proof {
        assert(mask << ((16 - s) as u16) == 0);
        assert((mask & ((mask - 1) as u16)) < mask) by (bit_vector)
            requires
                mask != 0,
        ;
        assert forall|j: int| 0 <= j < 16 implies #[trigger] lane(rest, j) == (lane(mask, j) && j
            != l) by {
            let t = j as u16;
            assert((((mask & ((mask - 1) as u16)) >> t) & 1 == 1) <==> ((mask >> t) & 1 == 1 && t
                != s)) by (bit_vector)
                requires
                    mask != 0,
                    s < 16,
                    t < 16,
                    (mask >> s) & 1 == 1,
                    mask << ((16 - s) as u16) == 0,
            ;
        }
        assert forall|j: int| 0 <= j < l implies !#[trigger] lane(mask, j) by {
            let t = j as u16;
            assert((mask >> t) & 1u16 == 0u16);
        }
    }
    (l as usize, rest)
}

/// A mask is empty exactly when no lane of it is set.
pub proof fn lemma_no_lane(mask: u16)
    ensures
        mask == 0 <==> (forall|l: int| 0 <= l < 16 ==> !#[trigger] lane(mask, l)),
{
    if mask == 0 {
        assert forall|l: int| 0 <= l < 16 implies !#[trigger] lane(mask, l) by {
            let s = l as u16;
            assert((0u16 >> s) & 1 == 0) by (bit_vector);
        }
    } else {
        vstd::std_specs::bits::axiom_u16_trailing_zeros(mask);
        assert(lane(mask, vstd::std_specs::bits::u16_trailing_zeros(mask) as int));
    }
}

/// Bit `l` of `masks[w]` is set iff `dots[w * 16 + l] > threshold`; bits past
/// the end of `dots` are cleared. Masks past the last one that `dots` needs are
/// left as they were.
///
/// This comparison is the whole cost of the top-k scan in steady state: a
/// candidate that beats the current k-th neighbour is rare, so almost every
/// score is touched exactly once, here.
pub fn beats_threshold(dots: &[Single], threshold: Single, masks: &mut Vec<u16>)
    requires
        old(masks)@.len() >= mask_words(dots@.len() as int),
    ensures
        final(masks)@.len() == old(masks)@.len(),
        forall|w: int, l: int|
            0 <= w < mask_words(dots@.len() as int) && 0 <= l < 16 ==> #[trigger] lane(
                final(masks)@[w],
                l,
            ) == (w * 16 + l < dots@.len() && dots@[w * 16 + l].greater(threshold)),
        forall|w: int|
            mask_words(dots@.len() as int) <= w < final(masks)@.len() ==> final(masks)@[w]
                == old(masks)@[w],
{
    beats_threshold_baseline(dots, threshold, masks)
}

/// The portable form of [`beats_threshold`].
pub fn beats_threshold_baseline(dots: &[Single], threshold: Single, masks: &mut Vec<u16>)
    requires
        old(masks)@.len() >= mask_words(dots@.len() as int),
    ensures
        final(masks)@.len() == old(masks)@.len(),
        forall|w: int, l: int|
            0 <= w < mask_words(dots@.len() as int) && 0 <= l < 16 ==> #[trigger] lane(
                final(masks)@[w],
                l,
            ) == (w * 16 + l < dots@.len() && dots@[w * 16 + l].greater(threshold)),
        forall|w: int|
            mask_words(dots@.len() as int) <= w < final(masks)@.len() ==> final(masks)@[w]
                == old(masks)@[w],
{
    let n: usize = dots.len();
    let mut word: usize = 0;
    let mut start: usize = 0;
    while start < n
        invariant
            n == dots@.len(),
            start <= n,
            start < dots@.len() ==> start == word * 16,
            start == dots@.len() ==> word == mask_words(dots@.len() as int),
            masks@.len() == old(masks)@.len(),
            masks@.len() >= mask_words(dots@.len() as int),
            forall|w: int, l: int|
                0 <= w < word && 0 <= l < 16 ==> #[trigger] lane(masks@[w], l) == (w * 16 + l
                    < dots@.len() && dots@[w * 16 + l].greater(threshold)),
            forall|w: int| word <= w < masks@.len() ==> masks@[w] == old(masks)@[w],
        decreases n - start,
    {
        let width: usize = if n - start < 16 {
            n - start
        } else {
            16
        };
        let mut bits: u16 = 0;
        let mut l: usize = 0;
        proof {
            lemma_no_lane(0);
        }
        while l < width
            invariant
                l <= width <= 16,
                start + width <= n,
                n == dots@.len(),
                forall|j: int|
                    0 <= j < 16 ==> #[trigger] lane(bits, j) == (j < l && dots@[start + j].greater(
                        threshold,
                    )),
            decreases width - l,
        {
            if dots[start + l].gt(threshold) {
                bits = with_lane(bits, l);
            }
            l += 1;
        }
        masks[word] = bits;
        word += 1;
        start += width;
    }
}

/// Bit `l` of `masks[r]` is set iff row `r` of `block` beats `thresholds[l]` in
/// column `strip + l`, `rows` rows of `stride` scores being read from `block`.
/// Masks past those rows are left as they were.
///
/// The column-direction twin of [`beats_threshold`]: one comparison per score,
/// against a different threshold per lane, with the loads still contiguous.
pub fn beats_lane_thresholds(
    block: &[Single],
    stride: usize,
    strip: usize,
    thresholds: &[Single],
    masks: &mut Vec<u16>,
)
    requires
        thresholds@.len() <= 16,
        strip + thresholds@.len() <= stride,
        stride > 0,
        old(masks)@.len() * stride >= block@.len(),
    ensures
        lane_masks(block@, stride as int, strip as int, thresholds@, final(masks)@),
        final(masks)@.len() == old(masks)@.len(),
        forall|r: int|
            block@.len() / stride as nat <= r < final(masks)@.len() ==> final(masks)@[r] == old(
                masks,
            )@[r],
{
    beats_lane_thresholds_baseline(block, stride, strip, thresholds, masks)
}

/// What [`beats_lane_thresholds`] makes of the whole rows that `block` holds.
pub open spec fn lane_masks(
    block: Seq<Single>,
    stride: int,
    strip: int,
    thresholds: Seq<Single>,
    masks: Seq<u16>,
) -> bool {
    forall|r: int, l: int|
        0 <= r < block.len() as int / stride && 0 <= l < 16 ==> #[trigger] lane(masks[r], l) == (l
            < thresholds.len() && block[r * stride + strip + l].greater(thresholds[l]))
}

/// The portable form of [`beats_lane_thresholds`].
pub fn beats_lane_thresholds_baseline(
    block: &[Single],
    stride: usize,
    strip: usize,
    thresholds: &[Single],
    masks: &mut Vec<u16>,
)
    requires
        thresholds@.len() <= 16,
        strip + thresholds@.len() <= stride,
        stride > 0,
        old(masks)@.len() * stride >= block@.len(),
    ensures
        lane_masks(block@, stride as int, strip as int, thresholds@, final(masks)@),
        final(masks)@.len() == old(masks)@.len(),
        forall|r: int|
            block@.len() / stride as nat <= r < final(masks)@.len() ==> final(masks)@[r] == old(
                masks,
            )@[r],
{
    let n: usize = block.len();
    let rows: usize = n / stride;
    let width: usize = thresholds.len();
    let mut row: usize = 0;
    proof {
        assert(rows <= masks@.len() && rows * stride <= block@.len()) by (nonlinear_arith)
            requires
                rows == block@.len() / stride as nat,
                masks@.len() * stride >= block@.len(),
                stride > 0,
        ;
    }
    while row < rows
        invariant
            row <= rows,
            n == block@.len(),
            rows == block@.len() as int / stride as int,
            rows <= masks@.len(),
            rows * stride <= block@.len(),
            width == thresholds@.len(),
            width <= 16,
            strip + width <= stride,
            masks@.len() == old(masks)@.len(),
            forall|r: int, l: int|
                0 <= r < row && 0 <= l < 16 ==> #[trigger] lane(masks@[r], l) == (l
                    < thresholds@.len() && block@[r * stride + strip + l].greater(
                    thresholds@[l],
                )),
            forall|r: int| row <= r < masks@.len() ==> masks@[r] == old(masks)@[r],
        decreases rows - row,
    {
        proof {
            assert(row * stride + stride <= rows * stride) by (nonlinear_arith)
                requires
                    row + 1 <= rows,
            ;
        }
        let start: usize = row * stride + strip;
        let mut bits: u16 = 0;
        let mut l: usize = 0;
        proof {
            lemma_no_lane(0);
        }
        while l < width
            invariant
                l <= width <= 16,
                width == thresholds@.len(),
                start + width <= n,
                n == block@.len(),
                forall|j: int|
                    0 <= j < 16 ==> #[trigger] lane(bits, j) == (j < l && block@[start + j].greater(
                        thresholds@[j],
                    )),
            decreases width - l,
        {
            if block[start + l].gt(thresholds[l]) {
                bits = with_lane(bits, l);
            }
            l += 1;
        }
        masks[row] = bits;
        row += 1;
    }
}

/// A mask is what its lanes are: two scans that set the same lanes agree bit for
/// bit.
pub proof fn lemma_mask_is_its_lanes(a: u16, b: u16)
    requires
        forall|l: int| 0 <= l < 16 ==> #[trigger] lane(a, l) == lane(b, l),
    ensures
        a == b,
{
    if a != b {
        assert((a ^ b) != 0) by (bit_vector)
            requires
                a != b,
        ;
        lemma_no_lane(a ^ b);
        let l = choose|l: int| 0 <= l < 16 && #[trigger] lane(a ^ b, l);
        let s = l as u16;
        assert((((a ^ b) >> s) & 1 == 1) ==> ((a >> s) & 1) != ((b >> s) & 1)) by (bit_vector)
            requires
                s < 16,
        ;
        assert(((a >> s) & 1) == 0 || ((a >> s) & 1) == 1) by (bit_vector);
        assert(((b >> s) & 1) == 0 || ((b >> s) & 1) == 1) by (bit_vector);
        assert(lane(a, l) == lane(b, l));
    }
}

/// Bit `l` of an integer, from the lowest up.
pub open spec fn bit(mask: int, l: nat) -> int {
    mask / pow2(l) as int % 2
}

/// Lane `l` of a mask is its bit `l`.
pub proof fn lemma_lane_is_a_bit(mask: u16, l: nat)
    requires
        l < 16,
    ensures
        lane(mask, l as int) <==> bit(mask as int, l) == 1,
{
    let s = l as u16;
    vstd::bits::lemma_u16_shr_is_div(mask, s);
    let shifted = mask >> s;
    assert(shifted & 1 == shifted % 2) by (bit_vector);
}

/// The mask of the low lanes has those bits and no other.
pub proof fn lemma_low_bits(len: usize, mask: u16, l: nat)
    requires
        call_ensures(low_lanes, (len,), mask),
        l < 16,
    ensures
        bit(mask as int, l) == 1 <==> l < len,
{
    lemma_lane_is_a_bit(mask, l);
}

/// The mask of a strip's columns past a row has the bits of those and no other.
pub proof fn lemma_bits_past_a_row(
    row: usize,
    first_col: usize,
    width: usize,
    mask: u16,
    l: nat,
)
    requires
        call_ensures(lanes_above, (row, first_col, width), mask),
        l < 16,
    ensures
        bit(mask as int, l) == 1 <==> l < width && first_col + l > row,
{
    lemma_lane_is_a_bit(mask, l);
}

/// A mask without a lane has every other bit that it had.
pub proof fn lemma_one_bit_is_cleared(mask: u16, cleared: usize, r: u16, l: nat)
    requires
        call_ensures(without_lane, (mask, cleared), r),
        l < 16,
    ensures
        bit(r as int, l) == 1 <==> bit(mask as int, l) == 1 && l != cleared,
{
    lemma_lane_is_a_bit(mask, l);
    lemma_lane_is_a_bit(r, l);
}

/// The lane that is split off a mask is its lowest set bit, and what is left has every
/// other one.
pub proof fn lemma_lowest_lane_is_split_off(mask: u16, r: (usize, u16), l: nat)
    requires
        call_ensures(pop_lane, (mask,), r),
        l < 16,
    ensures
        l == r.0 ==> bit(mask as int, l) == 1,
        l < r.0 ==> bit(mask as int, l) == 0,
        bit(r.1 as int, l) == 1 <==> bit(mask as int, l) == 1 && l != r.0,
{
    lemma_lane_is_a_bit(mask, l);
    lemma_lane_is_a_bit(r.1, l);
}

} // verus!
