//! Folding one scored block of the distance matrix into the top-k of the nodes
//! it touches.
use crate::arrival::{
    lemma_offered_alike, lemma_offered_joined, lemma_offered_next, lemma_offered_none,
    lemma_offered_valued, picked_for, with_offered, with_picked,
};
use crate::heap::Candidate;
use crate::lanes::{
    beats_lane_thresholds, beats_threshold, lane, lanes_above, lemma_lane_and,
    lemma_no_lane, mask_words, pop_lane, without_lane,
};
use crate::single::Single;
use crate::top_k::{
    arrivals, lemma_offered_filtered, lemma_offers_grow, offered_once, scores_of, stored,
    with_pairs, TopKHeaps,
};
use vstd::prelude::*;

verus! {

/// How many rows a column strip scans before re-reading its per-column
/// thresholds.
///
/// Only affects speed, never the result: a threshold rises monotonically as
/// offers land, so scanning against a stale (lower) bar merely lets more
/// candidates through the coarse filter to be rejected by the offer itself.
pub const THRESHOLD_REFRESH: usize = 8;

/// One scored sub-rectangle of the distance matrix: rows
/// `[row_start, row_start + rows)` against columns
/// `[col_start, col_start + cols)`, row-major with `stride` scores per row.
pub struct ScoreBlock<'a> {
    pub scores: &'a [Single],
    pub stride: usize,
    pub row_start: usize,
    pub rows: usize,
    pub col_start: usize,
    pub cols: usize,
}

impl<'a> ScoreBlock<'a> {
    /// The scores hold every row, and the nodes have ids of 32 bits below `n`.
    pub open spec fn wf(&self, n: int) -> bool {
        &&& self.cols <= self.stride
        &&& self.scores@.len() == self.rows * self.stride
        &&& self.row_start + self.rows <= n
        &&& self.col_start + self.cols <= n
        &&& n <= u32::MAX
    }

    /// Whether node `i` is a row and node `j` a column.
    pub open spec fn covers(&self, i: int, j: int) -> bool {
        &&& self.row_start <= i < self.row_start + self.rows
        &&& self.col_start <= j < self.col_start + self.cols
    }

    /// The score of row `i` against column `j`.
    pub open spec fn at(&self, i: int, j: int) -> Single {
        self.scores@[(i - self.row_start) * self.stride + (j - self.col_start)]
    }

    /// The score of a pair of nodes, whichever of the two is the row.
    pub open spec fn pair(&self, x: (int, int)) -> Single {
        if x.0 < x.1 {
            self.at(x.0, x.1)
        } else {
            self.at(x.1, x.0)
        }
    }
}

/// The pairs that row `i` of a block adds from column `first` on.
pub open spec fn row_pairs(block: &ScoreBlock, i: int, first: int) -> spec_fn((int, int)) -> bool {
    |x: (int, int)|
        x.0 == i && x.1 != i && block.col_start + first <= x.1 < block.col_start + block.cols
}

/// The scores of a block with the row's node first.
pub open spec fn row_scores(block: &ScoreBlock) -> spec_fn((int, int)) -> Single {
    |x: (int, int)| block.at(x.0, x.1)
}

/// The pairs of [`row_pairs`] whose lane is set in the first `words` masks, or
/// in the next one but no longer in `bits`.
spec fn offered_in_row(
    block: &ScoreBlock,
    i: int,
    first: int,
    masks: Seq<u16>,
    words: int,
    bits: u16,
) -> spec_fn((int, int)) -> bool {
    |x: (int, int)|
        {
            let c = x.1 - block.col_start - first;
            &&& x.0 == i
            &&& 0 <= c
            &&& c / 16 <= words
            &&& lane(masks[c / 16], c % 16)
            &&& c / 16 == words ==> !lane(bits, c % 16)
        }
}

/// Folds the columns of one row, from `first` on, into the row's top-k.
fn scan_row(
    block: &ScoreBlock,
    row: usize,
    first: usize,
    heaps: &mut TopKHeaps,
    masks: &mut Vec<u16>,
)
    requires
        old(heaps).holds_offers(),
        block.wf(old(heaps).n()),
        row < block.rows,
        first < block.cols,
        old(masks)@.len() >= mask_words(block.cols - first),
    ensures
        final(heaps).follows(old(heaps)),
        final(heaps).offers@ == with_offered(
            old(heaps).offers@,
            block.col_start as int,
            block.col_start + block.cols,
            row_pairs(block, block.row_start + row, first as int),
            row_scores(block),
        ),
        final(masks)@.len() == old(masks)@.len(),
{
    let ghost offers = heaps.offers@;
    let ghost bars = heaps.thresholds@;
    let ghost (lo, hi) = (block.col_start as int, block.col_start + block.cols);
    proof {
        heaps.lemma_follows_itself();
    }
    let i: usize = block.row_start + row;
    assert(block.scores.len() == block.scores@.len());
    proof {
        lemma_row_inside(row as int, block.rows as int, block.stride as int);
    }
    let offset: usize = row * block.stride;
    let dots: &[Single] = &block.scores[offset + first..offset + block.cols];
    let words: usize = dots.len() / 16 + (if dots.len() % 16 == 0 {
        0
    } else {
        1
    });
    let bar: Single = heaps.thresholds[i];
    beats_threshold(dots, bar, masks);
    // Under the dot product a node's own score is its largest, so without this
    // every node's nearest neighbour would be itself.
    if i >= block.col_start + first && i < block.col_start + block.cols {
        let own: usize = i - block.col_start - first;
        let cleared: u16 = without_lane(masks[own / 16], own % 16);
        masks[own / 16] = cleared;
    }
    proof {
        assert forall|c: int| 0 <= c < words * 16 implies #[trigger] lane(masks@[c / 16], c % 16)
            == (c < dots@.len() && block.col_start + first + c != i && dots@[c].greater(bar)) by {
            assert(c / 16 * 16 + c % 16 == c);
        }
        assert forall|c: int| 0 <= c < dots@.len() implies #[trigger] dots@[c] == block.at(
            i as int,
            block.col_start + first + c,
        ) by {}
        lemma_offered_none(
            offers,
            lo,
            hi,
            offered_in_row(block, i as int, first as int, masks@, 0, masks@[0]),
            row_scores(block),
        );
    }
    let mut word: usize = 0;
    while word < words
        invariant
            word <= words,
            words <= masks@.len(),
            heaps.follows(old(heaps)),
            block.wf(heaps.n()),
            i < heaps.n(),
            first < block.cols,
            dots@.len() == block.cols - first,
            words == mask_words(dots@.len() as int),
            lo == block.col_start,
            hi == block.col_start + block.cols,
            offers.len() == heaps.n(),
            heaps.offers@ == with_offered(
                offers,
                lo,
                hi,
                offered_in_row(
                    block,
                    i as int,
                    first as int,
                    masks@,
                    word as int,
                    masks@[word as int],
                ),
                row_scores(block),
            ),
            forall|c: int|
                0 <= c < words * 16 ==> #[trigger] lane(masks@[c / 16], c % 16) == (c < dots@.len()
                    && block.col_start + first + c != i && dots@[c].greater(bar)),
            forall|c: int|
                0 <= c < dots@.len() ==> #[trigger] dots@[c] == block.at(
                    i as int,
                    block.col_start + first + c,
                ),
        decreases words - word,
    {
        let mut bits: u16 = masks[word];
        while bits != 0
            invariant
                word < words,
                words <= masks@.len(),
                heaps.follows(old(heaps)),
                block.wf(heaps.n()),
                i < heaps.n(),
                first < block.cols,
                dots@.len() == block.cols - first,
                words == mask_words(dots@.len() as int),
                lo == block.col_start,
                hi == block.col_start + block.cols,
                offers.len() == heaps.n(),
                heaps.offers@ == with_offered(
                    offers,
                    lo,
                    hi,
                    offered_in_row(block, i as int, first as int, masks@, word as int, bits),
                    row_scores(block),
                ),
                forall|l: int|
                    0 <= l < 16 && #[trigger] lane(bits, l) ==> lane(masks@[word as int], l),
                forall|l: int, m: int|
                    #[trigger] lane(masks@[word as int], l) && !lane(bits, l) && #[trigger] lane(
                        bits,
                        m,
                    ) ==> l < m,
                forall|c: int|
                    0 <= c < words * 16 ==> #[trigger] lane(masks@[c / 16], c % 16) == (c
                        < dots@.len() && block.col_start + first + c != i && dots@[c].greater(bar)),
                forall|c: int|
                    0 <= c < dots@.len() ==> #[trigger] dots@[c] == block.at(
                        i as int,
                        block.col_start + first + c,
                    ),
            decreases bits,
        {
            let ghost before = bits;
            let (l, rest) = pop_lane(bits);
            let col: usize = word * 16 + l;
            proof {
                assert(col as int / 16 == word && col as int % 16 == l);
                assert(lane(masks@[col as int / 16], col as int % 16));
            }
            heaps.offer(i, dots[col], (block.col_start + first + col) as u32);
            bits = rest;
            proof {
                assert forall|other: int|
                    lo <= other < hi && #[trigger] offered_in_row(
                        block,
                        i as int,
                        first as int,
                        masks@,
                        word as int,
                        before,
                    )((i as int, other)) implies other < block.col_start + first + col by {
                    let c = other - block.col_start - first;
                    if c / 16 == word {
                        assert(lane(masks@[word as int], c % 16) && !lane(before, c % 16));
                        assert(lane(before, l as int));
                    }
                }
                lemma_offered_next(
                    offers,
                    lo,
                    hi,
                    offered_in_row(block, i as int, first as int, masks@, word as int, before),
                    offered_in_row(block, i as int, first as int, masks@, word as int, bits),
                    row_scores(block),
                    i as int,
                    block.col_start + first + col,
                );
            }
        }
        word += 1;
        proof {
            lemma_no_lane(bits);
            lemma_offered_alike(
                offers,
                lo,
                hi,
                offered_in_row(block, i as int, first as int, masks@, word - 1, bits),
                offered_in_row(
                    block,
                    i as int,
                    first as int,
                    masks@,
                    word as int,
                    masks@[word as int],
                ),
                row_scores(block),
            );
        }
    }
    let ghost wanted = row_pairs(block, i as int, first as int);
    proof {
        let picked = offered_in_row(
            block,
            i as int,
            first as int,
            masks@,
            words as int,
            masks@[words as int],
        );
        assert forall|y: (int, int)|
            0 <= y.0 < offers.len() && lo <= y.1 < hi && #[trigger] picked(y) implies wanted(y) by {
            let c = y.1 - block.col_start - first;
            assert(lane(masks@[c / 16], c % 16));
        }
        assert forall|y: (int, int)|
            0 <= y.0 < offers.len() && lo <= y.1 < hi && #[trigger] wanted(y) && !picked(
                y,
            ) implies !row_scores(block)(y).greater(bars[y.0]) by {
            let c = y.1 - block.col_start - first;
            assert(c / 16 < words);
            assert(dots@[c] == block.at(i as int, block.col_start + first + c));
            assert(lane(masks@[c / 16], c % 16) == (c < dots@.len() && block.col_start + first + c
                != i && dots@[c].greater(bar)));
        }
        old(heaps).lemma_bars();
        lemma_offered_filtered(
            offers,
            bars,
            lo,
            hi,
            picked,
            wanted,
            row_scores(block),
            heaps.k as int,
        );
    }
    heaps.pass_over(Ghost(with_offered(offers, lo, hi, wanted, row_scores(block))));
}

pub proof fn lemma_row_inside(row: int, rows: int, stride: int)
    by (nonlinear_arith)
    requires
        0 <= row < rows,
        0 < stride,
    ensures
        0 <= row * stride,
        row * stride + stride <= rows * stride,
{
}

/// The pairs that a run of columns and a run of rows of a block add to the
/// columns: those whose row is the smaller node.
pub open spec fn column_pairs(
    block: &ScoreBlock,
    strip: int,
    width: int,
    first_row: int,
    batch: int,
) -> spec_fn((int, int)) -> bool {
    |x: (int, int)|
        {
            &&& x.1 < x.0
            &&& block.col_start + strip <= x.0 < block.col_start + strip + width
            &&& block.row_start + first_row <= x.1 < block.row_start + first_row + batch
        }
}

/// The scores of a block with the column's node first.
pub open spec fn column_scores(block: &ScoreBlock) -> spec_fn((int, int)) -> Single {
    |x: (int, int)| block.at(x.1, x.0)
}

/// The pairs of [`column_pairs`] whose lane is set in the first `rows` masks, or
/// in the next one but no longer in `bits`.
spec fn offered_in_strip(
    block: &ScoreBlock,
    strip: int,
    first_row: int,
    masks: Seq<u16>,
    rows: int,
    bits: u16,
) -> spec_fn((int, int)) -> bool {
    |x: (int, int)|
        {
            let l = x.0 - block.col_start - strip;
            let r = x.1 - block.row_start - first_row;
            &&& x.1 < x.0
            &&& 0 <= r <= rows
            &&& lane(masks[r], l)
            &&& r == rows ==> !lane(bits, l)
        }
}

/// Folds a run of rows into the top-k of a strip of columns, against one reading
/// of the columns' thresholds.
fn scan_batch(
    block: &ScoreBlock,
    strip: usize,
    width: usize,
    first_row: usize,
    batch: usize,
    heaps: &mut TopKHeaps,
    masks: &mut Vec<u16>,
)
    requires
        old(heaps).holds_offers(),
        block.wf(old(heaps).n()),
        0 < width <= 16,
        strip + width <= block.cols,
        0 < batch,
        first_row + batch <= block.rows,
        old(masks)@.len() >= batch,
    ensures
        final(heaps).follows(old(heaps)),
        final(heaps).offers@ == with_offered(
            old(heaps).offers@,
            block.row_start + first_row,
            block.row_start + first_row + batch,
            column_pairs(block, strip as int, width as int, first_row as int, batch as int),
            column_scores(block),
        ),
        final(masks)@.len() == old(masks)@.len(),
{
    let ghost offers = heaps.offers@;
    let ghost bars = heaps.thresholds@;
    let ghost (lo, hi) = (block.row_start + first_row, block.row_start + first_row + batch);
    let ghost wanted = column_pairs(
        block,
        strip as int,
        width as int,
        first_row as int,
        batch as int,
    );
    assert(block.scores.len() == block.scores@.len());
    proof {
        heaps.lemma_follows_itself();
        lemma_batch_inside(first_row as int, batch as int, block.rows as int, block.stride as int);
        assert(masks@.len() * block.stride >= batch * block.stride) by (nonlinear_arith)
            requires
                masks@.len() >= batch,
        ;
    }
    let first_col: usize = block.col_start + strip;
    let thresholds: &[Single] = &heaps.thresholds.as_slice()[first_col..first_col + width];
    let scanned: &[Single] =
        &block.scores[first_row * block.stride..(first_row + batch) * block.stride];
    beats_lane_thresholds(scanned, block.stride, strip, thresholds, masks);
    proof {
        assert forall|r: int, l: int| 0 <= r < batch && 0 <= l < 16 implies #[trigger] lane(
            masks@[r],
            l,
        ) == (l < width && block.at(block.row_start + first_row + r, first_col + l).greater(
            bars[first_col + l],
        )) by {
            if l < width {
                lemma_row_inside(r, batch as int, block.stride as int);
                assert((first_row + r) * block.stride == first_row * block.stride + r
                    * block.stride) by (nonlinear_arith);
                assert(scanned@[r * block.stride + strip + l] == block.at(
                    block.row_start + first_row + r,
                    first_col + l,
                ));
                assert(thresholds@[l] == bars[first_col + l]);
            }
        }
        lemma_offered_none(
            offers,
            lo,
            hi,
            offered_in_strip(block, strip as int, first_row as int, masks@, 0, masks@[0]),
            column_scores(block),
        );
    }
    let mut offset: usize = 0;
    while offset < batch
        invariant
            offset <= batch,
            batch <= masks@.len(),
            heaps.follows(old(heaps)),
            block.wf(heaps.n()),
            width <= 16,
            strip + width <= block.cols,
            first_row + batch <= block.rows,
            first_col == block.col_start + strip,
            wanted == column_pairs(
                block,
                strip as int,
                width as int,
                first_row as int,
                batch as int,
            ),
            lo == block.row_start + first_row,
            hi == block.row_start + first_row + batch,
            offers.len() == heaps.n(),
            heaps.offers@ == with_offered(
                offers,
                lo,
                hi,
                offered_in_strip(
                    block,
                    strip as int,
                    first_row as int,
                    masks@,
                    offset as int,
                    masks@[offset as int],
                ),
                column_scores(block),
            ),
            forall|r: int, l: int|
                0 <= r < batch && 0 <= l < 16 ==> #[trigger] lane(masks@[r], l) == (l < width
                    && block.at(block.row_start + first_row + r, first_col + l).greater(
                    bars[first_col + l],
                )),
        decreases batch - offset,
    {
        let row: usize = first_row + offset;
        let i: usize = block.row_start + row;
        let above: u16 = lanes_above(i, first_col, width);
        let mut bits: u16 = masks[offset] & above;
        proof {
            lemma_lane_and(masks@[offset as int], above);
            lemma_offered_alike(
                offers,
                lo,
                hi,
                offered_in_strip(
                    block,
                    strip as int,
                    first_row as int,
                    masks@,
                    offset as int,
                    masks@[offset as int],
                ),
                offered_in_strip(
                    block,
                    strip as int,
                    first_row as int,
                    masks@,
                    offset as int,
                    bits,
                ),
                column_scores(block),
            );
        }
        while bits != 0
            invariant
                offset < batch,
                batch <= masks@.len(),
                heaps.follows(old(heaps)),
                block.wf(heaps.n()),
                width <= 16,
                strip + width <= block.cols,
                first_row + batch <= block.rows,
                first_col == block.col_start + strip,
                row == first_row + offset,
                i == block.row_start + row,
                wanted == column_pairs(
                    block,
                    strip as int,
                    width as int,
                    first_row as int,
                    batch as int,
                ),
                lo == block.row_start + first_row,
                hi == block.row_start + first_row + batch,
                offers.len() == heaps.n(),
                heaps.offers@ == with_offered(
                    offers,
                    lo,
                    hi,
                    offered_in_strip(
                        block,
                        strip as int,
                        first_row as int,
                        masks@,
                        offset as int,
                        bits,
                    ),
                    column_scores(block),
                ),
                forall|l: int|
                    0 <= l < 16 && #[trigger] lane(bits, l) ==> lane(masks@[offset as int], l) && i
                        < first_col + l,
                forall|r: int, l: int|
                    0 <= r < batch && 0 <= l < 16 ==> #[trigger] lane(masks@[r], l) == (l < width
                        && block.at(block.row_start + first_row + r, first_col + l).greater(
                        bars[first_col + l],
                    )),
            decreases bits,
        {
            let ghost before = bits;
            let (l, rest) = pop_lane(bits);
            let j: usize = first_col + l;
            proof {
                assert(lane(masks@[offset as int], l as int));
                lemma_row_inside(row as int, block.rows as int, block.stride as int);
                assert(block.scores.len() == block.scores@.len());
            }
            heaps.offer(j, block.scores[row * block.stride + strip + l], i as u32);
            bits = rest;
            proof {
                lemma_offered_next(
                    offers,
                    lo,
                    hi,
                    offered_in_strip(
                        block,
                        strip as int,
                        first_row as int,
                        masks@,
                        offset as int,
                        before,
                    ),
                    offered_in_strip(
                        block,
                        strip as int,
                        first_row as int,
                        masks@,
                        offset as int,
                        bits,
                    ),
                    column_scores(block),
                    j as int,
                    i as int,
                );
            }
        }
        offset += 1;
        proof {
            lemma_no_lane(bits);
            lemma_offered_alike(
                offers,
                lo,
                hi,
                offered_in_strip(
                    block,
                    strip as int,
                    first_row as int,
                    masks@,
                    offset - 1,
                    bits,
                ),
                offered_in_strip(
                    block,
                    strip as int,
                    first_row as int,
                    masks@,
                    offset as int,
                    masks@[offset as int],
                ),
                column_scores(block),
            );
        }
    }
    proof {
        let picked = offered_in_strip(
            block,
            strip as int,
            first_row as int,
            masks@,
            batch as int,
            masks@[batch as int],
        );
        assert forall|y: (int, int)|
            0 <= y.0 < offers.len() && lo <= y.1 < hi && #[trigger] picked(y) implies wanted(y) by {
            let l = y.0 - first_col;
            let r = y.1 - block.row_start - first_row;
            assert(lane(masks@[r], l));
        }
        assert forall|y: (int, int)|
            0 <= y.0 < offers.len() && lo <= y.1 < hi && #[trigger] wanted(y) && !picked(
                y,
            ) implies !column_scores(block)(y).greater(bars[y.0]) by {
            let l = y.0 - first_col;
            let r = y.1 - block.row_start - first_row;
            assert(lane(masks@[r], l) == (l < width && block.at(
                block.row_start + first_row + r,
                first_col + l,
            ).greater(bars[first_col + l])));
        }
        old(heaps).lemma_bars();
        lemma_offered_filtered(
            offers,
            bars,
            lo,
            hi,
            picked,
            wanted,
            column_scores(block),
            heaps.k as int,
        );
    }
    heaps.pass_over(Ghost(with_offered(offers, lo, hi, wanted, column_scores(block))));
}

proof fn lemma_batch_inside(first: int, batch: int, rows: int, stride: int)
    by (nonlinear_arith)
    requires
        0 <= first,
        0 < batch,
        first + batch <= rows,
        0 < stride,
    ensures
        0 <= first * stride,
        (first + batch) * stride <= rows * stride,
        (first + batch) * stride - first * stride == batch * stride,
        first * stride <= (first + batch) * stride,
        (batch * stride) / stride == batch,
{
}

/// The pairs of distinct nodes that a block scores, the row's node first.
pub open spec fn block_pairs(block: &ScoreBlock) -> spec_fn((int, int)) -> bool {
    |x: (int, int)| x.0 != x.1 && block.covers(x.0, x.1)
}

/// The pairs of distinct nodes that a block scores with the smaller node in the
/// row, in both orders.
pub open spec fn triangle_pairs(block: &ScoreBlock) -> spec_fn((int, int)) -> bool {
    |x: (int, int)|
        (x.0 < x.1 && block.covers(x.0, x.1)) || (x.1 < x.0 && block.covers(x.1, x.0))
}

/// The scores of a block, whichever node comes first.
pub open spec fn pair_scores(block: &ScoreBlock) -> spec_fn((int, int)) -> Single {
    |x: (int, int)| block.pair(x)
}

/// Folds a block into the top-k of its rows only, dropping the self pair. Used
/// by the walk that computes every block.
pub fn scan_rows(block: &ScoreBlock, heaps: &mut TopKHeaps, masks: &mut Vec<u16>)
    requires
        old(heaps).holds_offers(),
        block.wf(old(heaps).n()),
        block.rows > 0 ==> old(masks)@.len() >= mask_words(block.cols as int),
    ensures
        final(heaps).follows(old(heaps)),
        final(heaps).offers@ == with_offered(
            old(heaps).offers@,
            block.col_start as int,
            block.col_start + block.cols,
            block_pairs(block),
            row_scores(block),
        ),
        forall|v: int|
            0 <= v < final(heaps).n() ==> #[trigger] final(heaps).heap_of(v) == stored(
                old(heaps).offers@[v] + picked_for(
                    block.col_start as int,
                    block.col_start + block.cols,
                    block_pairs(block),
                    row_scores(block),
                    v,
                ),
                final(heaps).k as int,
            ),
        final(masks)@.len() == old(masks)@.len(),
{
    let ghost offers = heaps.offers@;
    let ghost (lo, hi) = (block.col_start as int, block.col_start + block.cols);
    proof {
        heaps.lemma_follows_itself();
    }
    if block.cols == 0 {
        proof {
            lemma_offered_none(offers, lo, hi, block_pairs(block), row_scores(block));
            heaps.lemma_all_held();
        }
        return ;
    }
    let mut row: usize = 0;
    proof {
        lemma_offered_none(offers, lo, hi, rows_done(block, 0), row_scores(block));
    }
    while row < block.rows
        invariant
            row <= block.rows,
            heaps.follows(old(heaps)),
            block.wf(heaps.n()),
            masks@.len() == old(masks)@.len(),
            0 < block.cols,
            block.rows > 0 ==> masks@.len() >= mask_words(block.cols as int),
            lo == block.col_start,
            hi == block.col_start + block.cols,
            offers.len() == heaps.n(),
            heaps.offers@ == with_offered(
                offers,
                lo,
                hi,
                rows_done(block, row as int),
                row_scores(block),
            ),
        decreases block.rows - row,
    {
        scan_row(block, row, 0, heaps, masks);
        proof {
            lemma_offered_joined(
                offers,
                lo,
                hi,
                rows_done(block, row as int),
                lo,
                hi,
                row_pairs(block, block.row_start + row, 0),
                rows_done(block, row + 1),
                row_scores(block),
            );
        }
        row += 1;
    }
    proof {
        lemma_offered_alike(
            offers,
            lo,
            hi,
            rows_done(block, block.rows as int),
            block_pairs(block),
            row_scores(block),
        );
        heaps.lemma_all_held();
    }
}

/// A block of whose pairs none was offered before adds them, at their scores, to what
/// its rows were offered.
pub proof fn lemma_rows_offered(offers: Seq<Seq<Candidate>>, block: &ScoreBlock)
    requires
        block.wf(offers.len() as int),
        offered_once(offers),
        forall|x: (int, int)|
            block_pairs(block)(x) ==> !#[trigger] scores_of(offers).contains_key(x),
    ensures
        ({
            let (lo, hi) = (block.col_start as int, block.col_start + block.cols);
            let next = with_offered(offers, lo, hi, block_pairs(block), row_scores(block));
            &&& offered_once(next)
            &&& scores_of(next) == with_pairs(
                scores_of(offers),
                block_pairs(block),
                row_scores(block),
            )
            &&& arrivals(next) == with_picked(arrivals(offers), lo, hi, block_pairs(block))
        }),
{
    lemma_offers_grow(
        offers,
        block.col_start as int,
        block.col_start + block.cols,
        block_pairs(block),
        row_scores(block),
        block_pairs(block),
    );
}

/// The pairs of [`block_pairs`], as far as row `rows`.
spec fn rows_done(block: &ScoreBlock, rows: int) -> spec_fn((int, int)) -> bool {
    |x: (int, int)| x.0 != x.1 && block.covers(x.0, x.1) && x.0 < block.row_start + rows
}

/// The row half of [`triangle_pairs`], as far as row `rows`.
spec fn upper_done(block: &ScoreBlock, rows: int) -> spec_fn((int, int)) -> bool {
    |x: (int, int)| x.0 < x.1 && block.covers(x.0, x.1) && x.0 < block.row_start + rows
}

/// The half of [`triangle_pairs`] with the row's node first.
pub open spec fn upper_pairs(block: &ScoreBlock) -> spec_fn((int, int)) -> bool {
    |x: (int, int)| x.0 < x.1 && block.covers(x.0, x.1)
}

/// The half of [`triangle_pairs`] with the column's node first.
pub open spec fn lower_pairs(block: &ScoreBlock) -> spec_fn((int, int)) -> bool {
    |x: (int, int)| x.1 < x.0 && block.covers(x.1, x.0)
}

/// The column half of [`triangle_pairs`] as far as column `cols`; of the next
/// `width` columns, as far as row `rows`.
spec fn columns_done(block: &ScoreBlock, cols: int, width: int, rows: int) -> spec_fn(
    (int, int),
) -> bool {
    |x: (int, int)|
        {
            &&& x.1 < x.0
            &&& block.covers(x.1, x.0)
            &&& {
                ||| x.0 < block.col_start + cols
                ||| x.0 < block.col_start + cols + width && x.1 < block.row_start + rows
            }
        }
}

/// How many masks the row direction needs: one bit for each column after the first
/// row.
pub open spec fn row_masks(block: &ScoreBlock) -> int {
    let (first, end) = (block.row_start + 1, block.col_start + block.cols);
    if block.rows == 0 || end <= first {
        0
    } else if first <= block.col_start {
        mask_words(block.cols as int)
    } else {
        mask_words(end - first)
    }
}

/// How many masks the column direction needs: one for each row scanned against one
/// reading of the thresholds, of those before the last column.
pub open spec fn column_masks(block: &ScoreBlock) -> int {
    let before = block.col_start + block.cols - block.row_start;
    let rows = if block.rows < before {
        block.rows as int
    } else {
        before
    };
    if rows < THRESHOLD_REFRESH {
        rows
    } else {
        THRESHOLD_REFRESH as int
    }
}

/// Node `i` of each row against the columns `j > i`.
fn scan_row_direction(block: &ScoreBlock, heaps: &mut TopKHeaps, masks: &mut Vec<u16>)
    requires
        old(heaps).holds_offers(),
        block.wf(old(heaps).n()),
        old(masks)@.len() >= row_masks(block),
    ensures
        final(heaps).follows(old(heaps)),
        final(heaps).offers@ == with_offered(
            old(heaps).offers@,
            block.col_start as int,
            block.col_start + block.cols,
            upper_done(block, block.rows as int),
            pair_scores(block),
        ),
        final(masks)@.len() == old(masks)@.len(),
{
    let ghost offers = heaps.offers@;
    let ghost (lo, hi) = (block.col_start as int, block.col_start + block.cols);
    proof {
        heaps.lemma_follows_itself();
    }
    let mut row: usize = 0;
    proof {
        lemma_offered_none(offers, lo, hi, upper_done(block, 0), pair_scores(block));
    }
    while row < block.rows
        invariant
            row <= block.rows,
            heaps.follows(old(heaps)),
            block.wf(heaps.n()),
            masks@.len() == old(masks)@.len(),
            masks@.len() >= row_masks(block),
            lo == block.col_start,
            hi == block.col_start + block.cols,
            offers.len() == heaps.n(),
            heaps.offers@ == with_offered(
                offers,
                lo,
                hi,
                upper_done(block, row as int),
                pair_scores(block),
            ),
        ensures
            heaps.follows(old(heaps)),
            masks@.len() == old(masks)@.len(),
            heaps.offers@ == with_offered(
                offers,
                lo,
                hi,
                upper_done(block, block.rows as int),
                pair_scores(block),
            ),
        decreases block.rows - row,
    {
        let i: usize = block.row_start + row;
        let first: usize = if i + 1 > block.col_start {
            i + 1 - block.col_start
        } else {
            0
        };
        if first >= block.cols {
            // `i` only grows from here, so no later row has eligible columns.
            proof {
                lemma_offered_alike(
                    offers,
                    lo,
                    hi,
                    upper_done(block, row as int),
                    upper_done(block, block.rows as int),
                    pair_scores(block),
                );
            }
            break ;
        }
        let ghost before = heaps.offers@;
        scan_row(block, row, first, heaps, masks);
        proof {
            lemma_offered_valued(
                before,
                lo,
                hi,
                row_pairs(block, i as int, first as int),
                row_scores(block),
                pair_scores(block),
            );
            lemma_offered_joined(
                offers,
                lo,
                hi,
                upper_done(block, row as int),
                lo,
                hi,
                row_pairs(block, i as int, first as int),
                upper_done(block, row + 1),
                pair_scores(block),
            );
        }
        row += 1;
    }
}

/// Folds a block into the top-k of its rows and its columns, counting each
/// unordered pair `(i, j)` exactly once by keeping only `i < j`.
///
/// The same filter serves every block, wherever its columns start. In a
/// block strictly above the diagonal every `i` is already below every `j`, so it
/// is free; in a block straddling the diagonal it is what drops the self pairs
/// and the mirror images that the block's own upper half already covered.
pub fn scan_upper_triangle(block: &ScoreBlock, heaps: &mut TopKHeaps, masks: &mut Vec<u16>)
    requires
        old(heaps).holds_offers(),
        block.wf(old(heaps).n()),
        old(masks)@.len() >= row_masks(block),
        old(masks)@.len() >= column_masks(block),
    ensures
        final(heaps).follows(old(heaps)),
        final(heaps).offers@ == with_offered(
            with_offered(
                old(heaps).offers@,
                block.col_start as int,
                block.col_start + block.cols,
                upper_pairs(block),
                pair_scores(block),
            ),
            block.row_start as int,
            block.row_start + block.rows,
            lower_pairs(block),
            pair_scores(block),
        ),
        forall|v: int|
            0 <= v < final(heaps).n() ==> #[trigger] final(heaps).heap_of(v) == stored(
                old(heaps).offers@[v] + picked_for(
                    block.col_start as int,
                    block.col_start + block.cols,
                    upper_pairs(block),
                    pair_scores(block),
                    v,
                ) + picked_for(
                    block.row_start as int,
                    block.row_start + block.rows,
                    lower_pairs(block),
                    pair_scores(block),
                    v,
                ),
                final(heaps).k as int,
            ),
        final(masks)@.len() == old(masks)@.len(),
{
    let ghost first_offers = heaps.offers@;
    let ghost (lo, hi) = (block.row_start as int, block.row_start + block.rows);
    scan_row_direction(block, heaps, masks);
    let ghost offers = heaps.offers@;
    proof {
        lemma_offered_alike(
            first_offers,
            block.col_start as int,
            block.col_start + block.cols,
            upper_done(block, block.rows as int),
            upper_pairs(block),
            pair_scores(block),
        );
        lemma_offered_none(offers, lo, hi, columns_done(block, 0, 0, 0), pair_scores(block));
    }
    // Column direction: node `j` against the rows `i < j`. Sixteen columns are
    // carried at a time so the loads stay contiguous: the transpose lives in the
    // thresholds, not in the memory access pattern.
    let mut strip: usize = 0;
    while strip < block.cols
        invariant
            strip <= block.cols,
            heaps.follows(old(heaps)),
            block.wf(heaps.n()),
            masks@.len() == old(masks)@.len(),
            masks@.len() >= column_masks(block),
            lo == block.row_start,
            hi == block.row_start + block.rows,
            offers.len() == heaps.n(),
            heaps.offers@ == with_offered(
                offers,
                lo,
                hi,
                columns_done(block, strip as int, 0, 0),
                pair_scores(block),
            ),
        decreases block.cols - strip,
    {
        let width: usize = if block.cols - strip < 16 {
            block.cols - strip
        } else {
            16
        };
        let last_col: usize = block.col_start + strip + width;
        // Rows at or past the strip's last column have no `i < j` lane left. A strip
        // that ends before the first row has none at all, and a later one may.
        let rows: usize = if last_col <= block.row_start {
            0
        } else if last_col - block.row_start < block.rows {
            last_col - block.row_start
        } else {
            block.rows
        };
        // The strip's thresholds are read anew every few rows rather than once
        // for the whole strip: a column's bar rises as the rows go by, and every
        // row compared against a stale bar turns into an offer that is rejected
        // after the fact.
        let mut first_row: usize = 0;
        proof {
            lemma_offered_alike(
                offers,
                lo,
                hi,
                columns_done(block, strip as int, 0, 0),
                columns_done(block, strip as int, width as int, 0),
                pair_scores(block),
            );
        }
        while first_row < rows
            invariant
                first_row <= rows,
                rows <= block.rows,
                0 < width <= 16,
                strip + width <= block.cols,
                heaps.follows(old(heaps)),
                block.wf(heaps.n()),
                masks@.len() == old(masks)@.len(),
                masks@.len() >= column_masks(block),
                block.row_start + rows <= block.col_start + block.cols || rows == 0,
                lo == block.row_start,
                hi == block.row_start + block.rows,
                offers.len() == heaps.n(),
                heaps.offers@ == with_offered(
                    offers,
                    lo,
                    hi,
                    columns_done(block, strip as int, width as int, first_row as int),
                    pair_scores(block),
                ),
            decreases rows - first_row,
        {
            let batch: usize = if rows - first_row < THRESHOLD_REFRESH {
                rows - first_row
            } else {
                THRESHOLD_REFRESH
            };
            let ghost before = heaps.offers@;
            scan_batch(block, strip, width, first_row, batch, heaps, masks);
            proof {
                lemma_offered_valued(
                    before,
                    block.row_start + first_row,
                    block.row_start + first_row + batch,
                    column_pairs(
                        block,
                        strip as int,
                        width as int,
                        first_row as int,
                        batch as int,
                    ),
                    column_scores(block),
                    pair_scores(block),
                );
                lemma_offered_joined(
                    offers,
                    lo,
                    hi,
                    columns_done(block, strip as int, width as int, first_row as int),
                    block.row_start + first_row,
                    block.row_start + first_row + batch,
                    column_pairs(
                        block,
                        strip as int,
                        width as int,
                        first_row as int,
                        batch as int,
                    ),
                    columns_done(block, strip as int, width as int, first_row + batch),
                    pair_scores(block),
                );
            }
            first_row += batch;
        }
        proof {
            lemma_offered_alike(
                offers,
                lo,
                hi,
                columns_done(block, strip as int, width as int, rows as int),
                columns_done(block, strip + width, 0, 0),
                pair_scores(block),
            );
        }
        strip += width;
    }
    proof {
        lemma_offered_alike(
            offers,
            lo,
            hi,
            columns_done(block, block.cols as int, 0, 0),
            lower_pairs(block),
            pair_scores(block),
        );
        heaps.lemma_all_held();
    }
}

/// A block of whose pairs none was offered before adds them, at their scores, to what
/// its rows and its columns were offered.
pub proof fn lemma_triangle_offered(offers: Seq<Seq<Candidate>>, block: &ScoreBlock)
    requires
        block.wf(offers.len() as int),
        offered_once(offers),
        forall|x: (int, int)|
            triangle_pairs(block)(x) ==> !#[trigger] scores_of(offers).contains_key(x),
    ensures
        ({
            let (first, last) = (block.row_start as int, block.row_start + block.rows);
            let (lo, hi) = (block.col_start as int, block.col_start + block.cols);
            let value = pair_scores(block);
            let mid = with_offered(offers, lo, hi, upper_pairs(block), value);
            let next = with_offered(mid, first, last, lower_pairs(block), value);
            &&& offered_once(next)
            &&& scores_of(next) == with_pairs(scores_of(offers), triangle_pairs(block), value)
            &&& arrivals(next) == with_picked(
                with_picked(arrivals(offers), lo, hi, upper_pairs(block)),
                first,
                last,
                lower_pairs(block),
            )
        }),
{
    let (first, last) = (block.row_start as int, block.row_start + block.rows);
    let (lo, hi) = (block.col_start as int, block.col_start + block.cols);
    let value = pair_scores(block);
    let (upper, lower) = (upper_pairs(block), lower_pairs(block));
    let mid = with_offered(offers, lo, hi, upper, value);
    assert forall|x: (int, int)| upper(x) implies !#[trigger] scores_of(offers).contains_key(x) by {
        assert(triangle_pairs(block)(x));
    }
    lemma_offers_grow(offers, lo, hi, upper, value, upper);
    assert forall|x: (int, int)| lower(x) implies !#[trigger] scores_of(mid).contains_key(x) by {
        assert(triangle_pairs(block)(x));
    }
    lemma_offers_grow(mid, first, last, lower, value, lower);
    assert(with_pairs(with_pairs(scores_of(offers), upper, value), lower, value) =~= with_pairs(
        scores_of(offers),
        triangle_pairs(block),
        value,
    ));
}

} // verus!
