//! Exact top-k neighbours for every vector of one partition.
//!
//! A graph index that inserts its nodes one at a time pays a search per
//! insertion to find that node's candidate neighbours. When the partition is
//! small enough to hold in memory, scoring the whole `n x n` distance matrix on
//! a matrix kernel and reading each node's neighbours straight out of it is
//! cheaper. This module produces that lookup table.
//!
//! The full matrix is never materialised. It is walked in
//! `ROW_BLOCK x COL_BLOCK` tiles, each tile is folded into the running top-k of
//! the nodes it touches, and then dropped. Dot products are symmetric, so only
//! the tiles at or above the diagonal are computed; each one updates the top-k of
//! both its rows and its columns.
//!
//! The kernel is the caller's: `pack` brings one column block into the layout
//! the kernel reads (or declines, where there is no kernel), and `score` returns
//! the raw dot products of a run of rows against a packed block, larger being
//! nearer. Vectors are half-precision bit patterns, row-major.
use crate::arrival::{
    lemma_filter_all, lemma_filter_none, lemma_filter_part, lemma_filter_without,
    lemma_nothing_appended, lemma_numbers_appended, lemma_numbers_joined, numbers, picks_of,
    with_picked,
};
use crate::distance::DistanceType;
use crate::error::Error;
use crate::knn::{
    has_clear_cut, is_exact_at, lemma_one_row, lemma_row_ascends, lemma_row_fits,
    lemma_row_has_no_duplicates, lemma_slot_owner, ExactKnn,
};
use crate::scan::{
    block_pairs, lemma_row_inside, lemma_rows_offered, lemma_triangle_offered, lower_pairs,
    pair_scores, row_scores, scan_rows, scan_upper_triangle, triangle_pairs, upper_pairs,
    ScoreBlock,
};
use crate::single::Single;
use crate::text::{append_decimal, decimal};
use crate::top_k::{
    admissible, arrivals, kept, lists_all, offered_once, scores_of, too_few_neighbours,
    too_many_slots, with_pairs, Scores, TopKHeaps,
};
use vstd::prelude::*;
use vstd::string::StringExecFns;

verus! {

/// Vectors scored against one packed column block per kernel call.
///
/// The block's scores have to stay resident in the private cache while the next
/// row block streams past them.
pub const COL_BLOCK: usize = 256;

/// Rows handed to one kernel call.
pub const ROW_BLOCK: usize = 1024;

/// Rows in one tile of the kernel, which has no partial-tile path.
pub const TILE_ROWS: usize = 32;

pub open spec fn least(a: int, b: int) -> int {
    if a < b {
        a
    } else {
        b
    }
}

/// How many neighbours each of `n` nodes gets when `k` are asked for.
pub open spec fn listed(k: int, n: int) -> int {
    if n == 0 {
        0
    } else {
        least(k, n - 1)
    }
}

/// The first row of the row block that holds node `i`.
pub open spec fn row_start_of(i: int) -> int {
    i / ROW_BLOCK as int * ROW_BLOCK
}

/// The first column of the column block that holds node `j`.
pub open spec fn col_start_of(j: int) -> int {
    j / COL_BLOCK as int * COL_BLOCK
}

/// How many rows the row block at `start` has.
pub open spec fn rows_at(n: int, start: int) -> int {
    least(ROW_BLOCK as int, n - start)
}

/// How many columns the column block at `start` has.
pub open spec fn cols_at(n: int, start: int) -> int {
    least(COL_BLOCK as int, n - start)
}

/// `rows` rounded up to whole tiles.
pub open spec fn tiled(rows: int) -> int {
    (rows + TILE_ROWS - 1) / TILE_ROWS as int * TILE_ROWS
}

/// The vectors of the column block at `start`.
pub open spec fn column_operand(vectors: Seq<u16>, n: int, dim: int, start: int) -> Seq<u16> {
    vectors.subrange(start * dim, (start + cols_at(n, start)) * dim)
}

/// What the kernel reads its rows from for the row block at `start`: the vectors
/// from there on, or, where those do not fill the last tile, the block's own
/// followed by zeros that do.
pub open spec fn row_operand(vectors: Seq<u16>, n: int, dim: int, start: int) -> Seq<u16> {
    let rows = rows_at(n, start);
    if start + tiled(rows) > n {
        vectors.subrange(start * dim, (start + rows) * dim) + Seq::new(
            ((tiled(rows) - rows) * dim) as nat,
            |p: int| 0u16,
        )
    } else {
        vectors.subrange(start * dim, n * dim)
    }
}

/// What the kernel asks of its caller and owes it: it can pack every block of
/// columns, pads a block within the widest one, can be called on what it packed,
/// and then returns a score for each row and padded column.
pub open spec fn kernel_ready<P, Pack, Score>(pack: &Pack, score: &Score) -> bool where
    Pack: Fn(&[u16], usize, usize) -> Option<(P, usize)>,
    Score: Fn(&P, &[u16], usize, usize, usize) -> Vec<Single>,
 {
    &&& forall|c: &[u16], len: usize, dim: usize|
        is_column_block(c, len, dim) ==> #[trigger] call_requires(*pack, (c, len, dim))
    &&& forall|c: &[u16], len: usize, dim: usize, p: P, stride: usize|
        is_column_block(c, len, dim) && #[trigger] call_ensures(
            *pack,
            (c, len, dim),
            Some((p, stride)),
        ) ==> len <= stride <= COL_BLOCK
    &&& forall|c: &[u16], len: usize, dim: usize, p: P, stride: usize, v: &[u16], rows: usize|
        #![trigger
            call_ensures(*pack, (c, len, dim), Some((p, stride))),
            call_requires(*score, (&p, v, rows, dim, stride))
        ]
        is_column_block(c, len, dim) && call_ensures(*pack, (c, len, dim), Some((p, stride)))
            && is_row_block(v, rows, dim) ==> call_requires(*score, (&p, v, rows, dim, stride))
    &&& forall|
        c: &[u16],
        len: usize,
        dim: usize,
        p: P,
        stride: usize,
        v: &[u16],
        rows: usize,
        out: Vec<Single>,
    |
        #![trigger
            call_ensures(*pack, (c, len, dim), Some((p, stride))),
            call_ensures(*score, (&p, v, rows, dim, stride), out)
        ]
        is_column_block(c, len, dim) && call_ensures(*pack, (c, len, dim), Some((p, stride)))
            && is_row_block(v, rows, dim) && call_ensures(
            *score,
            (&p, v, rows, dim, stride),
            out,
        ) ==> out@.len() >= rows * stride
}

/// Whether `c` holds a block of `len` columns.
pub open spec fn is_column_block(c: &[u16], len: usize, dim: usize) -> bool {
    c@.len() == len * dim && 0 < len <= COL_BLOCK
}

/// Whether `v` holds a block of `rows` rows, in whole tiles.
pub open spec fn is_row_block(v: &[u16], rows: usize, dim: usize) -> bool {
    v@.len() >= rows * dim && 0 < rows <= ROW_BLOCK && rows % TILE_ROWS == 0
}

/// Whether `pack` made `packed`, padded to `stride` columns, of the column block
/// at `start`.
pub open spec fn packed_by<P, Pack>(
    pack: &Pack,
    vectors: Seq<u16>,
    n: int,
    dim: usize,
    start: int,
    packed: P,
    stride: usize,
) -> bool where Pack: Fn(&[u16], usize, usize) -> Option<(P, usize)> {
    exists|v: &[u16]|
        v@ == column_operand(vectors, n, dim as int, start) && #[trigger] call_ensures(
            *pack,
            (v, cols_at(n, start) as usize, dim),
            Some((packed, stride)),
        )
}

/// Whether `pack` declined the column block at `start`.
pub open spec fn declined_by<P, Pack>(
    pack: &Pack,
    vectors: Seq<u16>,
    n: int,
    dim: usize,
    start: int,
) -> bool where Pack: Fn(&[u16], usize, usize) -> Option<(P, usize)> {
    exists|v: &[u16]|
        v@ == column_operand(vectors, n, dim as int, start) && #[trigger] call_ensures(
            *pack,
            (v, cols_at(n, start) as usize, dim),
            None::<(P, usize)>,
        )
}

/// Whether `pack` packed the column block at `start`.
pub open spec fn is_packed<P, Pack>(
    pack: &Pack,
    vectors: Seq<u16>,
    n: int,
    dim: usize,
    start: int,
) -> bool where Pack: Fn(&[u16], usize, usize) -> Option<(P, usize)> {
    exists|packed: P, stride: usize| #[trigger]
        packed_by(pack, vectors, n, dim, start, packed, stride)
}

/// Whether `pack` packed every column block.
pub open spec fn all_packed<P, Pack>(pack: &Pack, vectors: Seq<u16>, n: int, dim: usize) -> bool where
    Pack: Fn(&[u16], usize, usize) -> Option<(P, usize)>,
 {
    forall|start: int|
        0 <= start < n && start % COL_BLOCK as int == 0 ==> #[trigger] is_packed::<P, Pack>(
            pack,
            vectors,
            n,
            dim,
            start,
        )
}

/// Whether the kernel returned `out` for the row block at `row_start` against the
/// column block at `col_start`, padded to `stride` columns.
pub open spec fn scored_by<P, Pack, Score>(
    pack: &Pack,
    score: &Score,
    vectors: Seq<u16>,
    n: int,
    dim: usize,
    row_start: int,
    col_start: int,
    stride: usize,
    out: Vec<Single>,
) -> bool where
    Pack: Fn(&[u16], usize, usize) -> Option<(P, usize)>,
    Score: Fn(&P, &[u16], usize, usize, usize) -> Vec<Single>,
 {
    exists|packed: P, v: &[u16]|
        {
            &&& packed_by(pack, vectors, n, dim, col_start, packed, stride)
            &&& v@ == row_operand(vectors, n, dim as int, row_start)
            &&& #[trigger] call_ensures(
                *score,
                (&packed, v, tiled(rows_at(n, row_start)) as usize, dim, stride),
                out,
            )
        }
}

/// Whether the kernel scored node `i` as a row against node `j` as a column at
/// `dot`.
pub open spec fn kernel_scored<P, Pack, Score>(
    pack: &Pack,
    score: &Score,
    vectors: Seq<u16>,
    n: int,
    dim: usize,
    i: int,
    j: int,
    dot: Single,
) -> bool where
    Pack: Fn(&[u16], usize, usize) -> Option<(P, usize)>,
    Score: Fn(&P, &[u16], usize, usize, usize) -> Vec<Single>,
 {
    exists|stride: usize, out: Vec<Single>|
        {
            &&& #[trigger] scored_by(
                pack,
                score,
                vectors,
                n,
                dim,
                row_start_of(i),
                col_start_of(j),
                stride,
                out,
            )
            &&& dot == out@[(i - row_start_of(i)) * stride + (j - col_start_of(j))]
        }
}

/// Whether `x` is a pair of distinct nodes of `n`.
pub open spec fn is_pair(x: (int, int), n: int) -> bool {
    0 <= x.0 < n && 0 <= x.1 < n && x.0 != x.1
}

/// Whether the kernel scored the pair `x` at `dot`. With `symmetric` it is the
/// smaller node that was the row, in either order.
pub open spec fn pair_scored<P, Pack, Score>(
    pack: &Pack,
    score: &Score,
    vectors: Seq<u16>,
    n: int,
    dim: usize,
    symmetric: bool,
    x: (int, int),
    dot: Single,
) -> bool where
    Pack: Fn(&[u16], usize, usize) -> Option<(P, usize)>,
    Score: Fn(&P, &[u16], usize, usize, usize) -> Vec<Single>,
 {
    if symmetric && x.1 < x.0 {
        kernel_scored(pack, score, vectors, n, dim, x.1, x.0, dot)
    } else {
        kernel_scored(pack, score, vectors, n, dim, x.0, x.1, dot)
    }
}

/// Whether `scores` holds what the kernel made of every pair of distinct nodes
/// and nothing else; with `symmetric`, one score for both orders of a pair.
pub open spec fn is_score_table<P, Pack, Score>(
    pack: &Pack,
    score: &Score,
    vectors: Seq<u16>,
    n: int,
    dim: usize,
    symmetric: bool,
    scores: Scores,
) -> bool where
    Pack: Fn(&[u16], usize, usize) -> Option<(P, usize)>,
    Score: Fn(&P, &[u16], usize, usize, usize) -> Vec<Single>,
 {
    &&& forall|x: (int, int)| #[trigger] scores.contains_key(x) <==> is_pair(x, n)
    &&& forall|x: (int, int)| #[trigger]
        scores.contains_key(x) ==> pair_scored(
            pack,
            score,
            vectors,
            n,
            dim,
            symmetric,
            x,
            scores[x],
        )
    &&& symmetric ==> forall|x: (int, int)| #[trigger]
        scores.contains_key(x) ==> scores[x] == scores[(x.1, x.0)]
}

/// The end of the column block of `n` nodes that holds node `j`.
pub open spec fn col_end_of(n: int, j: int) -> int {
    least(col_start_of(j) + COL_BLOCK, n)
}

/// The order in which node `x` of `n` is offered the others. The walk of the whole
/// matrix brings them by ascending id. That of one triangle brings first the rows
/// of the row blocks before that of `x`, by then folded into their columns; then,
/// with the column block that holds `x`, the columns of it after `x` and the rows of
/// the row block before `x`; and then the columns after that block.
pub open spec fn arrival_order(n: int, symmetric: bool, x: int) -> Seq<int> {
    if symmetric {
        let start = row_start_of(x);
        let end = col_end_of(n, x);
        numbers(0, start) + numbers(x + 1, end) + numbers(start, x) + numbers(end, n)
    } else {
        numbers(0, x) + numbers(x + 1, n)
    }
}

/// Either walk brings a node every other one, and each once.
pub proof fn lemma_every_other_arrives_once(n: int, symmetric: bool, x: int)
    requires
        0 <= x < n,
    ensures
        arrival_order(n, symmetric, x).no_duplicates(),
        forall|id: int| #[trigger]
            arrival_order(n, symmetric, x).contains(id) <==> 0 <= id < n && id != x,
{
    let order = arrival_order(n, symmetric, x);
    let start = row_start_of(x);
    let end = col_end_of(n, x);
    assert(0 <= start <= x < end <= n);
    assert forall|id: int| #[trigger] order.contains(id) <==> 0 <= id < n && id != x by {
        if 0 <= id < n && id != x {
            let at = if !symmetric {
                if id < x {
                    id
                } else {
                    id - 1
                }
            } else if id < start {
                id
            } else if id < x {
                end - x - 1 + id
            } else if id < end {
                start + id - x - 1
            } else {
                id - 1
            };
            assert(order[at] == id);
        }
    }
}

/// Whether each node of the table lists those that it keeps of the others, offered
/// in the order that the walk brings them in.
pub open spec fn lists_kept(knn: &ExactKnn, symmetric: bool, scores: Scores) -> bool {
    forall|node: int|
        0 <= node < knn.num_nodes ==> lists_all(
            #[trigger] knn.ids_of(node),
            kept(
                arrival_order(knn.num_nodes as int, symmetric, node),
                scores,
                node,
                knn.k as int,
            ),
        )
}

/// A contiguous run of the partition's vectors, packed once into the layout the
/// kernel reads its columns in.
struct ColumnBlock<P> {
    /// Index of this block's first vector within the partition.
    start: usize,
    /// Vectors in the block, before the kernel's padding.
    len: usize,
    /// Scores the kernel writes per row.
    stride: usize,
    packed: P,
}

impl<P> ColumnBlock<P> {
    spec fn is_block<Pack>(
        &self,
        pack: &Pack,
        vectors: Seq<u16>,
        n: int,
        dim: usize,
        index: int,
    ) -> bool where Pack: Fn(&[u16], usize, usize) -> Option<(P, usize)> {
        &&& self.start == index * COL_BLOCK
        &&& self.start < n
        &&& self.len == cols_at(n, self.start as int)
        &&& self.len <= self.stride <= COL_BLOCK
        &&& packed_by(pack, vectors, n, dim, self.start as int, self.packed, self.stride)
    }
}

proof fn lemma_scaled(a: int, b: int, dim: int)
    by (nonlinear_arith)
    requires
        0 <= a <= b,
        0 <= dim,
    ensures
        0 <= a * dim <= b * dim,
        b * dim - a * dim == (b - a) * dim,
{
}

/// Every column block, packed. Packed once and reused by every row block: packing
/// is far too expensive to redo in the inner loop.
fn pack_blocks<P, Pack>(vectors: &[u16], n: usize, dim: usize, pack: &Pack) -> (r: Option<
    Vec<ColumnBlock<P>>,
>) where Pack: Fn(&[u16], usize, usize) -> Option<(P, usize)>
    requires
        vectors@.len() == n * dim,
        forall|c: &[u16], len: usize, dim: usize|
            is_column_block(c, len, dim) ==> #[trigger] call_requires(*pack, (c, len, dim)),
        forall|c: &[u16], len: usize, dim: usize, p: P, stride: usize|
            is_column_block(c, len, dim) && #[trigger] call_ensures(
                *pack,
                (c, len, dim),
                Some((p, stride)),
            ) ==> len <= stride <= COL_BLOCK,
    ensures
        r is Some ==> all_packed::<P, Pack>(pack, vectors@, n as int, dim),
        r matches Some(blocks) ==> {
            &&& blocks@.len() * COL_BLOCK >= n
            &&& forall|b: int|
                0 <= b < blocks@.len() ==> (#[trigger] blocks@[b]).is_block(
                    pack,
                    vectors@,
                    n as int,
                    dim,
                    b,
                )
        },
        r is None ==> exists|start: int| #[trigger]
            declined_by::<P, Pack>(pack, vectors@, n as int, dim, start) && 0 <= start < n
                && start % COL_BLOCK as int == 0,
{
    let mut blocks: Vec<ColumnBlock<P>> = Vec::new();
    let mut start: usize = 0;
    assert(vectors.len() == vectors@.len());
    while start < n
        invariant
            start <= n,
            vectors@.len() == n * dim,
            vectors.len() == vectors@.len(),
            start < n ==> start == blocks@.len() * COL_BLOCK,
            start == n ==> blocks@.len() * COL_BLOCK >= n,
            forall|c: &[u16], len: usize, dim: usize|
                is_column_block(c, len, dim) ==> #[trigger] call_requires(*pack, (c, len, dim)),
            forall|c: &[u16], len: usize, dim: usize, p: P, stride: usize|
                is_column_block(c, len, dim) && #[trigger] call_ensures(
                    *pack,
                    (c, len, dim),
                    Some((p, stride)),
                ) ==> len <= stride <= COL_BLOCK,
            forall|b: int|
                0 <= b < blocks@.len() ==> (#[trigger] blocks@[b]).is_block(
                    pack,
                    vectors@,
                    n as int,
                    dim,
                    b,
                ),
        decreases n - start,
    {
        let len: usize = if n - start < COL_BLOCK {
            n - start
        } else {
            COL_BLOCK
        };
        proof {
            lemma_scaled(start as int, start + len, dim as int);
            lemma_scaled(start + len, n as int, dim as int);
        }
        let operand: &[u16] = &vectors[start * dim..(start + len) * dim];
        match pack(operand, len, dim) {
            None => {
                assert(declined_by::<P, Pack>(pack, vectors@, n as int, dim, start as int));
                return None;
            },
            Some((packed, stride)) => {
                assert(packed_by(pack, vectors@, n as int, dim, start as int, packed, stride));
                blocks.push(ColumnBlock { start, len, stride, packed });
            },
        }
        start += len;
    }
    proof {
        assert forall|start: int|
            0 <= start < n && start % COL_BLOCK as int == 0 implies #[trigger] is_packed::<
            P,
            Pack,
        >(pack, vectors@, n as int, dim, start) by {
            let b = start / COL_BLOCK as int;
            let block = blocks@[b];
            assert(block.is_block(pack, vectors@, n as int, dim, b));
            assert(packed_by(
                pack,
                vectors@,
                n as int,
                dim,
                start,
                block.packed,
                block.stride,
            ));
        }
    }
    Some(blocks)
}

/// The pairs scored once every row before `row_start` was walked, and of the next
/// `rows` rows the columns before `cols`. With `symmetric` the smaller node of a
/// pair is its row.
spec fn walked(
    n: int,
    symmetric: bool,
    row_start: int,
    rows: int,
    cols: int,
    x: (int, int),
) -> bool {
    let (i, j) = if symmetric && x.1 < x.0 {
        (x.1, x.0)
    } else {
        x
    };
    is_pair(x, n) && (i < row_start || (i < row_start + rows && j < cols))
}

/// Whether `seen` holds what the kernel made of the pairs of [`walked`].
#[verifier::opaque]
spec fn is_progress<P, Pack, Score>(
    pack: &Pack,
    score: &Score,
    vectors: Seq<u16>,
    n: int,
    dim: usize,
    symmetric: bool,
    seen: Scores,
    row_start: int,
    rows: int,
    cols: int,
) -> bool where
    Pack: Fn(&[u16], usize, usize) -> Option<(P, usize)>,
    Score: Fn(&P, &[u16], usize, usize, usize) -> Vec<Single>,
 {
    &&& forall|x: (int, int)| #[trigger]
        seen.contains_key(x) <==> walked(n, symmetric, row_start, rows, cols, x)
    &&& forall|x: (int, int)| #[trigger]
        seen.contains_key(x) ==> pair_scored(
            pack,
            score,
            vectors,
            n,
            dim,
            symmetric,
            x,
            seen[x],
        )
    &&& symmetric ==> forall|x: (int, int)| #[trigger]
        seen.contains_key(x) ==> seen[x] == seen[(x.1, x.0)]
}

/// The candidates that node `x` was offered once every row before `row_start` was
/// walked, and of the next `rows` rows the columns before `cols`, in the order they
/// arrived in.
spec fn arrived_by(
    n: int,
    symmetric: bool,
    row_start: int,
    rows: int,
    cols: int,
    x: int,
) -> Seq<int> {
    if x < row_start {
        arrival_order(n, symmetric, x)
    } else if x < row_start + rows {
        if !symmetric {
            numbers(0, least(x, cols)) + numbers(x + 1, cols)
        } else if cols <= col_start_of(x) {
            numbers(0, row_start)
        } else {
            let end = col_end_of(n, x);
            numbers(0, row_start) + numbers(x + 1, end) + numbers(row_start, x) + numbers(end, cols)
        }
    } else if !symmetric {
        seq![]
    } else if x < cols {
        numbers(0, row_start + rows)
    } else {
        numbers(0, row_start)
    }
}

/// Whether every node has been offered what [`arrived_by`] says.
#[verifier::opaque]
spec fn has_arrived(
    n: int,
    symmetric: bool,
    row_start: int,
    rows: int,
    cols: int,
    arrived: Seq<Seq<int>>,
) -> bool {
    &&& arrived.len() == n
    &&& forall|x: int|
        0 <= x < n ==> #[trigger] arrived[x] == arrived_by(n, symmetric, row_start, rows, cols, x)
}

/// The walk starts with nothing scored.
proof fn lemma_walk_begun<P, Pack, Score>(
    pack: &Pack,
    score: &Score,
    vectors: Seq<u16>,
    n: int,
    dim: usize,
    symmetric: bool,
    seen: Scores,
    arrived: Seq<Seq<int>>,
) where
    Pack: Fn(&[u16], usize, usize) -> Option<(P, usize)>,
    Score: Fn(&P, &[u16], usize, usize, usize) -> Vec<Single>,

    requires
        seen == Map::<(int, int), Single>::empty(),
        arrived.len() == n,
        forall|x: int| 0 <= x < n ==> #[trigger] arrived[x] == Seq::<int>::empty(),
    ensures
        is_progress(
            pack,
            score,
            vectors,
            n,
            dim,
            symmetric,
            seen,
            0,
            0,
            0,
        ),
        has_arrived(n, symmetric, 0, 0, 0, arrived),
{
    reveal(is_progress);
    reveal(has_arrived);
    assert(numbers(0, 0) =~= Seq::<int>::empty());
}

/// The walk of a row block starts with none of its columns.
proof fn lemma_row_block_begun<P, Pack, Score>(
    pack: &Pack,
    score: &Score,
    vectors: Seq<u16>,
    n: int,
    dim: usize,
    symmetric: bool,
    seen: Scores,
    arrived: Seq<Seq<int>>,
    row_start: int,
    rows: int,
) where
    Pack: Fn(&[u16], usize, usize) -> Option<(P, usize)>,
    Score: Fn(&P, &[u16], usize, usize, usize) -> Vec<Single>,

    requires
        0 <= row_start,
        0 <= rows,
        is_progress(
            pack,
            score,
            vectors,
            n,
            dim,
            symmetric,
            seen,
            row_start,
            0,
            0,
        ),
        has_arrived(n, symmetric, row_start, 0, 0, arrived),
    ensures
        is_progress(
            pack,
            score,
            vectors,
            n,
            dim,
            symmetric,
            seen,
            row_start,
            rows,
            0,
        ),
        has_arrived(n, symmetric, row_start, rows, 0, arrived),
{
    reveal(is_progress);
    reveal(has_arrived);
    assert forall|x: int| 0 <= x < n implies #[trigger] arrived[x] == arrived_by(
        n,
        symmetric,
        row_start,
        rows,
        0,
        x,
    ) by {
        assert(arrived[x] == arrived_by(n, symmetric, row_start, 0, 0, x));
        assert(numbers(0, least(x, 0)) + numbers(x + 1, 0) =~= Seq::<int>::empty());
    }
}

/// A column block below the diagonal brings nothing: each of its pairs was scored,
/// and folded into both of its endpoints, with the transposed block.
proof fn lemma_below_diagonal<P, Pack, Score>(
    pack: &Pack,
    score: &Score,
    vectors: Seq<u16>,
    n: int,
    dim: usize,
    symmetric: bool,
    seen: Scores,
    arrived: Seq<Seq<int>>,
    row_start: int,
    rows: int,
    cols: int,
    more: int,
) where
    Pack: Fn(&[u16], usize, usize) -> Option<(P, usize)>,
    Score: Fn(&P, &[u16], usize, usize, usize) -> Vec<Single>,

    requires
        symmetric,
        0 <= row_start,
        0 <= rows,
        row_start % ROW_BLOCK as int == 0,
        cols <= more <= row_start,
        is_progress(
            pack,
            score,
            vectors,
            n,
            dim,
            symmetric,
            seen,
            row_start,
            rows,
            cols,
        ),
        has_arrived(n, symmetric, row_start, rows, cols, arrived),
    ensures
        is_progress(
            pack,
            score,
            vectors,
            n,
            dim,
            symmetric,
            seen,
            row_start,
            rows,
            more,
        ),
        has_arrived(n, symmetric, row_start, rows, more, arrived),
{
    reveal(is_progress);
    reveal(has_arrived);
    assert forall|x: int| 0 <= x < n implies #[trigger] arrived[x] == arrived_by(
        n,
        symmetric,
        row_start,
        rows,
        more,
        x,
    ) by {
        assert(arrived[x] == arrived_by(n, symmetric, row_start, rows, cols, x));
        if x >= row_start {
            assert(row_start <= col_start_of(x));
        }
    }
}

/// A row block is done with its last column.
proof fn lemma_row_block_done<P, Pack, Score>(
    pack: &Pack,
    score: &Score,
    vectors: Seq<u16>,
    n: int,
    dim: usize,
    symmetric: bool,
    seen: Scores,
    arrived: Seq<Seq<int>>,
    row_start: int,
    rows: int,
) where
    Pack: Fn(&[u16], usize, usize) -> Option<(P, usize)>,
    Score: Fn(&P, &[u16], usize, usize, usize) -> Vec<Single>,

    requires
        0 <= row_start,
        rows == rows_at(n, row_start),
        row_start % ROW_BLOCK as int == 0,
        is_progress(
            pack,
            score,
            vectors,
            n,
            dim,
            symmetric,
            seen,
            row_start,
            rows,
            n,
        ),
        has_arrived(n, symmetric, row_start, rows, n, arrived),
    ensures
        is_progress(
            pack,
            score,
            vectors,
            n,
            dim,
            symmetric,
            seen,
            row_start + rows,
            0,
            0,
        ),
        has_arrived(n, symmetric, row_start + rows, 0, 0, arrived),
{
    reveal(is_progress);
    reveal(has_arrived);
    assert forall|x: int| 0 <= x < n implies #[trigger] arrived[x] == arrived_by(
        n,
        symmetric,
        row_start + rows,
        0,
        0,
        x,
    ) by {
        assert(arrived[x] == arrived_by(n, symmetric, row_start, rows, n, x));
        if row_start <= x < row_start + rows {
            assert(row_start_of(x) == row_start);
        }
    }
}

/// The walk is done with its last row.
proof fn lemma_walk_done<P, Pack, Score>(
    pack: &Pack,
    score: &Score,
    vectors: Seq<u16>,
    n: int,
    dim: usize,
    symmetric: bool,
    seen: Scores,
    arrived: Seq<Seq<int>>,
) where
    Pack: Fn(&[u16], usize, usize) -> Option<(P, usize)>,
    Score: Fn(&P, &[u16], usize, usize, usize) -> Vec<Single>,

    requires
        is_progress(
            pack,
            score,
            vectors,
            n,
            dim,
            symmetric,
            seen,
            n,
            0,
            0,
        ),
        has_arrived(n, symmetric, n, 0, 0, arrived),
    ensures
        is_score_table(pack, score, vectors, n, dim, symmetric, seen),
        forall|x: int| 0 <= x < n ==> #[trigger] arrived[x] == arrival_order(n, symmetric, x),
{
    reveal(is_progress);
    reveal(has_arrived);
}

/// Folding one scored block into its rows brings them its columns.
proof fn lemma_rows_arrived(n: int, arrived: Seq<Seq<int>>, block: &ScoreBlock)
    requires
        block.wf(n),
        has_arrived(
            n,
            false,
            block.row_start as int,
            block.rows as int,
            block.col_start as int,
            arrived,
        ),
    ensures
        has_arrived(
            n,
            false,
            block.row_start as int,
            block.rows as int,
            block.col_start + block.cols,
            with_picked(
                arrived,
                block.col_start as int,
                block.col_start + block.cols,
                block_pairs(block),
            ),
        ),
{
    reveal(has_arrived);
    let (start, rows) = (block.row_start as int, block.rows as int);
    let (lo, hi) = (block.col_start as int, block.col_start + block.cols);
    let pick = block_pairs(block);
    let next = with_picked(arrived, lo, hi, pick);
    assert forall|x: int| 0 <= x < n implies #[trigger] next[x] == arrived_by(
        n,
        false,
        start,
        rows,
        hi,
        x,
    ) by {
        let p = picks_of(pick, x);
        assert(arrived[x] == arrived_by(n, false, start, rows, lo, x));
        if start <= x < start + rows {
            lemma_filter_without(lo, hi, x, p);
            assert(next[x] =~= numbers(0, least(x, hi)) + numbers(x + 1, hi));
        } else {
            lemma_filter_none(lo, hi, p);
            assert(next[x] =~= arrived[x]);
        }
    }
}

/// What a scored block at or above the diagonal brings node `x`: its later columns if
/// `x` is among its rows, and its earlier rows if `x` is among its columns.
proof fn lemma_triangle_node(
    n: int,
    x: int,
    start: int,
    rows: int,
    lo: int,
    hi: int,
    p: spec_fn(int) -> bool,
    q: spec_fn(int) -> bool,
)
    requires
        0 <= x < n,
        0 <= start <= lo < n,
        start % ROW_BLOCK as int == 0,
        lo % COL_BLOCK as int == 0,
        rows == rows_at(n, start),
        hi == lo + cols_at(n, lo),
        forall|id: int|
            lo <= id < hi ==> (#[trigger] p(id) <==> start <= x < start + rows && x < id),
        forall|id: int|
            start <= id < start + rows ==> (#[trigger] q(id) <==> lo <= x < hi && id < x),
    ensures
        arrived_by(n, true, start, rows, lo, x) + numbers(lo, hi).filter(p) + numbers(
            start,
            start + rows,
        ).filter(q) == arrived_by(n, true, start, rows, hi, x),
{
    let end = start + rows;
    let before = arrived_by(n, true, start, rows, lo, x);
    if !(lo <= x < hi) {
        lemma_filter_none(start, end, q);
        assert(numbers(start, start) =~= Seq::<int>::empty());
        lemma_nothing_appended(before + numbers(lo, hi).filter(p), start, start);
    }
    if x < start || end <= x {
        lemma_filter_none(lo, hi, p);
        assert(numbers(lo, lo) =~= Seq::<int>::empty());
        lemma_nothing_appended(before, lo, lo);
        if lo <= x < hi {
            lemma_filter_all(start, end, q);
            lemma_numbers_joined(0, start, end);
        }
    } else if x < lo {
        assert(col_start_of(x) < lo && col_end_of(n, x) <= lo);
        lemma_filter_all(lo, hi, p);
        lemma_numbers_appended(
            numbers(0, start) + numbers(x + 1, col_end_of(n, x)) + numbers(start, x),
            col_end_of(n, x),
            lo,
            hi,
        );
    } else if x < hi {
        assert(col_start_of(x) == lo);
        lemma_filter_part(lo, hi, x + 1, hi, p);
        lemma_filter_part(start, end, start, x, q);
        lemma_nothing_appended(
            numbers(0, start) + numbers(x + 1, hi) + numbers(start, x),
            hi,
            hi,
        );
    } else {
        assert(hi <= col_start_of(x));
        lemma_filter_none(lo, hi, p);
        assert(numbers(lo, lo) =~= Seq::<int>::empty());
        lemma_nothing_appended(before, lo, lo);
    }
}

/// Folding one scored block at or above the diagonal into its rows and its columns
/// brings each the other's nodes.
proof fn lemma_triangle_arrived(n: int, arrived: Seq<Seq<int>>, block: &ScoreBlock)
    requires
        block.wf(n),
        0 < block.cols,
        block.row_start % ROW_BLOCK == 0,
        block.col_start % COL_BLOCK == 0,
        block.rows == rows_at(n, block.row_start as int),
        block.cols == cols_at(n, block.col_start as int),
        block.row_start <= block.col_start,
        has_arrived(
            n,
            true,
            block.row_start as int,
            block.rows as int,
            block.col_start as int,
            arrived,
        ),
    ensures
        has_arrived(
            n,
            true,
            block.row_start as int,
            block.rows as int,
            block.col_start + block.cols,
            with_picked(
                with_picked(
                    arrived,
                    block.col_start as int,
                    block.col_start + block.cols,
                    upper_pairs(block),
                ),
                block.row_start as int,
                block.row_start + block.rows,
                lower_pairs(block),
            ),
        ),
{
    reveal(has_arrived);
    let (start, end) = (block.row_start as int, block.row_start + block.rows);
    let (lo, hi) = (block.col_start as int, block.col_start + block.cols);
    let mid = with_picked(arrived, lo, hi, upper_pairs(block));
    let next = with_picked(mid, start, end, lower_pairs(block));
    assert forall|x: int| 0 <= x < n implies #[trigger] next[x] == arrived_by(
        n,
        true,
        start,
        block.rows as int,
        hi,
        x,
    ) by {
        let (p, q) = (picks_of(upper_pairs(block), x), picks_of(lower_pairs(block), x));
        assert(arrived[x] == arrived_by(n, true, start, block.rows as int, lo, x));
        lemma_triangle_node(n, x, start, block.rows as int, lo, hi, p, q);
    }
}

/// No pair of the next block was scored before.
proof fn lemma_block_unseen<P, Pack, Score>(
    pack: &Pack,
    score: &Score,
    vectors: Seq<u16>,
    n: int,
    dim: usize,
    symmetric: bool,
    seen: Scores,
    block: &ScoreBlock,
) where
    Pack: Fn(&[u16], usize, usize) -> Option<(P, usize)>,
    Score: Fn(&P, &[u16], usize, usize, usize) -> Vec<Single>,

    requires
        is_progress(
            pack,
            score,
            vectors,
            n,
            dim,
            symmetric,
            seen,
            block.row_start as int,
            block.rows as int,
            block.col_start as int,
        ),
    ensures
        forall|x: (int, int)|
            (if symmetric {
                triangle_pairs(block)(x)
            } else {
                block_pairs(block)(x)
            }) ==> !#[trigger] seen.contains_key(x),
{
    reveal(is_progress);
}

/// Folding one scored block moves the walk past it.
proof fn lemma_block_walked<P, Pack, Score>(
    pack: &Pack,
    score: &Score,
    vectors: Seq<u16>,
    n: int,
    dim: usize,
    symmetric: bool,
    seen: Scores,
    next: Scores,
    block: &ScoreBlock,
    out: Vec<Single>,
) where
    Pack: Fn(&[u16], usize, usize) -> Option<(P, usize)>,
    Score: Fn(&P, &[u16], usize, usize, usize) -> Vec<Single>,

    requires
        block.wf(n),
        block.row_start % ROW_BLOCK == 0,
        block.col_start % COL_BLOCK == 0,
        block.rows == rows_at(n, block.row_start as int),
        block.cols == cols_at(n, block.col_start as int),
        symmetric ==> block.row_start <= block.col_start,
        is_progress(
            pack,
            score,
            vectors,
            n,
            dim,
            symmetric,
            seen,
            block.row_start as int,
            block.rows as int,
            block.col_start as int,
        ),
        scored_by(
            pack,
            score,
            vectors,
            n,
            dim,
            block.row_start as int,
            block.col_start as int,
            block.stride,
            out,
        ),
        out@.len() >= block.rows * block.stride,
        block.scores@ == out@.subrange(0, block.rows * block.stride),
        next == if symmetric {
            with_pairs(seen, triangle_pairs(block), pair_scores(block))
        } else {
            with_pairs(seen, block_pairs(block), row_scores(block))
        },
    ensures
        is_progress(
            pack,
            score,
            vectors,
            n,
            dim,
            symmetric,
            next,
            block.row_start as int,
            block.rows as int,
            block.col_start + block.cols,
        ),
{
    reveal(is_progress);
    let row_start = block.row_start as int;
    let col_start = block.col_start as int;
    assert forall|i: int, j: int| #[trigger] block.covers(i, j) implies kernel_scored(
        pack,
        score,
        vectors,
        n,
        dim,
        i,
        j,
        block.at(i, j),
    ) by {
        assert(row_start_of(i) == row_start);
        assert(col_start_of(j) == col_start);
        lemma_row_inside(i - row_start, block.rows as int, block.stride as int);
    }
    assert forall|x: (int, int)| #[trigger] next.contains_key(x) <==> walked(
        n,
        symmetric,
        row_start,
        block.rows as int,
        col_start + block.cols,
        x,
    ) by {
        assert(seen.contains_key(x) <==> walked(
            n,
            symmetric,
            row_start,
            block.rows as int,
            col_start,
            x,
        ));
    }
    assert forall|x: (int, int)| #[trigger] next.contains_key(x) implies pair_scored(
        pack,
        score,
        vectors,
        n,
        dim,
        symmetric,
        x,
        next[x],
    ) by {
        if !seen.contains_key(x) {
            if symmetric && x.1 < x.0 {
                assert(block.covers(x.1, x.0));
            } else {
                assert(block.covers(x.0, x.1));
            }
        }
    }
    if symmetric {
        assert forall|x: (int, int)| #[trigger] next.contains_key(x) implies next[x] == next[(
            x.1,
            x.0,
        )] by {
            let y = (x.1, x.0);
            assert(seen.contains_key(x) <==> seen.contains_key(y));
            assert(next.contains_key(y));
        }
    }
}

/// The rows of the row block at `row_start`, followed by zeros that fill the last
/// tile.
fn padded_rows(
    vectors: &[u16],
    n: usize,
    dim: usize,
    row_start: usize,
    rows: usize,
    tiled_rows: usize,
) -> (data: Vec<u16>)
    requires
        vectors@.len() == n * dim,
        row_start < n,
        rows == rows_at(n as int, row_start as int),
        tiled_rows == tiled(rows as int),
        row_start + tiled_rows > n,
    ensures
        data@ == row_operand(vectors@, n as int, dim as int, row_start as int),
{
    proof {
        lemma_scaled(row_start as int, row_start + rows, dim as int);
        lemma_scaled(row_start + rows, n as int, dim as int);
        lemma_scaled(rows as int, tiled_rows as int, dim as int);
        assert(vectors.len() == vectors@.len());
    }
    let ghost zero = |p: int| 0u16;
    let mut data: Vec<u16> = Vec::new();
    data.extend_from_slice(&vectors[row_start * dim..(row_start + rows) * dim]);
    let ghost own = data@;
    let mut row: usize = rows;
    assert(data@ =~= own + Seq::new(0, zero));
    while row < tiled_rows
        invariant
            rows <= row <= tiled_rows,
            own.len() == rows * dim,
            zero == (|p: int| 0u16),
            data@ == own + Seq::new(((row - rows) * dim) as nat, zero),
        decreases tiled_rows - row,
    {
        let mut value: usize = 0;
        proof {
            lemma_scaled(0, row - rows, dim as int);
        }
        while value < dim
            invariant
                value <= dim,
                zero == (|p: int| 0u16),
                0 <= (row - rows) * dim,
                data@ == own + Seq::new(((row - rows) * dim + value) as nat, zero),
            decreases dim - value,
        {
            data.push(0);
            value += 1;
            assert(data@ =~= own + Seq::new(((row - rows) * dim + value) as nat, zero));
        }
        proof {
            assert((row - rows + 1) * dim == (row - rows) * dim + dim) by (nonlinear_arith);
        }
        row += 1;
    }
    data
}

/// Scores the rows of `data`, the row block at `row_start`, against every column
/// block and folds each tile into the nodes it touches.
fn walk_row_block<P, Pack, Score>(
    vectors: &[u16],
    n: usize,
    dim: usize,
    row_start: usize,
    data: &[u16],
    blocks: &Vec<ColumnBlock<P>>,
    use_symmetry: bool,
    pack: &Pack,
    score: &Score,
    heaps: &mut TopKHeaps,
    masks: &mut Vec<u16>,
) where
    Pack: Fn(&[u16], usize, usize) -> Option<(P, usize)>,
    Score: Fn(&P, &[u16], usize, usize, usize) -> Vec<Single>,

    requires
        kernel_ready(pack, score),
        vectors@.len() == n * dim,
        row_start < n <= u32::MAX,
        row_start % ROW_BLOCK == 0,
        data@ == row_operand(vectors@, n as int, dim as int, row_start as int),
        blocks@.len() * COL_BLOCK >= n,
        forall|b: int|
            0 <= b < blocks@.len() ==> (#[trigger] blocks@[b]).is_block(
                pack,
                vectors@,
                n as int,
                dim,
                b,
            ),
        old(heaps).holds_offers(),
        offered_once(old(heaps).offers@),
        old(heaps).n() == n,
        old(masks)@.len() >= ROW_BLOCK,
        is_progress(
            pack,
            score,
            vectors@,
            n as int,
            dim,
            use_symmetry,
            scores_of(old(heaps).offers@),
            row_start as int,
            0,
            0,
        ),
        has_arrived(n as int, use_symmetry, row_start as int, 0, 0, arrivals(old(heaps).offers@)),
    ensures
        final(heaps).holds_offers(),
        offered_once(final(heaps).offers@),
        final(heaps).n() == n,
        final(heaps).k == old(heaps).k,
        final(masks)@.len() == old(masks)@.len(),
        is_progress(
            pack,
            score,
            vectors@,
            n as int,
            dim,
            use_symmetry,
            scores_of(final(heaps).offers@),
            row_start + rows_at(n as int, row_start as int),
            0,
            0,
        ),
        has_arrived(
            n as int,
            use_symmetry,
            row_start + rows_at(n as int, row_start as int),
            0,
            0,
            arrivals(final(heaps).offers@),
        ),
{
    let rows: usize = if n - row_start < ROW_BLOCK {
        n - row_start
    } else {
        ROW_BLOCK
    };
    let tiled_rows: usize = (rows + (TILE_ROWS - 1)) / TILE_ROWS * TILE_ROWS;
    proof {
        lemma_scaled(0, rows as int, dim as int);
        lemma_scaled(rows as int, tiled_rows as int, dim as int);
        lemma_scaled(row_start as int, row_start + rows, dim as int);
        lemma_scaled(row_start + rows, n as int, dim as int);
        if row_start + tiled_rows <= n {
            lemma_scaled(tiled_rows as int, n - row_start, dim as int);
            lemma_scaled(row_start as int, n as int, dim as int);
        }
    }
    assert(data@.len() >= tiled_rows * dim);
    let mut b: usize = 0;
    proof {
        lemma_row_block_begun(
            pack,
            score,
            vectors@,
            n as int,
            dim,
            use_symmetry,
            scores_of(heaps.offers@),
            arrivals(heaps.offers@),
            row_start as int,
            rows as int,
        );
    }
    while b < blocks.len()
        invariant
            kernel_ready(pack, score),
            b <= blocks@.len(),
            vectors@.len() == n * dim,
            row_start < n <= u32::MAX,
            row_start % ROW_BLOCK == 0,
            rows == rows_at(n as int, row_start as int),
            tiled_rows == tiled(rows as int),
            data@ == row_operand(vectors@, n as int, dim as int, row_start as int),
            data@.len() >= tiled_rows * dim,
            forall|b: int|
                0 <= b < blocks@.len() ==> (#[trigger] blocks@[b]).is_block(
                    pack,
                    vectors@,
                    n as int,
                    dim,
                    b,
                ),
            heaps.holds_offers(),
            offered_once(heaps.offers@),
            heaps.n() == n,
            heaps.k == old(heaps).k,
            masks@.len() == old(masks)@.len(),
            masks@.len() >= ROW_BLOCK,
            is_progress(
                pack,
                score,
                vectors@,
                n as int,
                dim,
                use_symmetry,
                scores_of(heaps.offers@),
                row_start as int,
                rows as int,
                least(b * COL_BLOCK, n as int),
            ),
            has_arrived(
                n as int,
                use_symmetry,
                row_start as int,
                rows as int,
                least(b * COL_BLOCK, n as int),
                arrivals(heaps.offers@),
            ),
        decreases blocks@.len() - b,
    {
        let block = &blocks[b];
        assert(block.is_block(pack, vectors@, n as int, dim, b as int));
        // Below the diagonal: every pair in this block was already scored, and
        // folded into both of its endpoints, by the transposed block.
        if !(use_symmetry && block.start + block.len <= row_start) {
            let ghost columns = choose|v: &[u16]|
                v@ == column_operand(vectors@, n as int, dim as int, block.start as int)
                    && #[trigger] call_ensures(
                    *pack,
                    (v, cols_at(n as int, block.start as int) as usize, dim),
                    Some((block.packed, block.stride)),
                );
            assert(call_ensures(
                *pack,
                (columns, cols_at(n as int, block.start as int) as usize, dim),
                Some((block.packed, block.stride)),
            ));
            proof {
                lemma_scaled(block.start as int, block.start + block.len, dim as int);
                lemma_scaled(block.start + block.len, n as int, dim as int);
            }
            assert(is_column_block(columns, block.len, dim));
            assert(is_row_block(data, tiled_rows, dim));
            let out = score(&block.packed, data, tiled_rows, dim, block.stride);
            assert(scored_by(
                pack,
                score,
                vectors@,
                n as int,
                dim,
                row_start as int,
                block.start as int,
                block.stride,
                out,
            ));
            proof {
                lemma_scaled(rows as int, tiled_rows as int, block.stride as int);
                lemma_scaled(0, rows as int, block.stride as int);
                assert(out.len() == out@.len());
            }
            // Rows `rows..tiled_rows` and columns `block.len..block.stride` are
            // the kernel's zero padding. Neither is inside the ranges below, so
            // no padding slot can ever reach a neighbour list.
            let scored = ScoreBlock {
                scores: &out.as_slice()[0..rows * block.stride],
                stride: block.stride,
                row_start,
                rows,
                col_start: block.start,
                cols: block.len,
            };
            let ghost offers = heaps.offers@;
            let ghost seen = scores_of(offers);
            let ghost arrived = arrivals(offers);
            proof {
                lemma_block_unseen(
                    pack,
                    score,
                    vectors@,
                    n as int,
                    dim,
                    use_symmetry,
                    seen,
                    &scored,
                );
            }
            if use_symmetry {
                scan_upper_triangle(&scored, heaps, masks);
            } else {
                scan_rows(&scored, heaps, masks);
            }
            proof {
                if use_symmetry {
                    lemma_triangle_offered(offers, &scored);
                } else {
                    lemma_rows_offered(offers, &scored);
                }
                lemma_block_walked(
                    pack,
                    score,
                    vectors@,
                    n as int,
                    dim,
                    use_symmetry,
                    seen,
                    scores_of(heaps.offers@),
                    &scored,
                    out,
                );
                if use_symmetry {
                    lemma_triangle_arrived(n as int, arrived, &scored);
                } else {
                    lemma_rows_arrived(n as int, arrived, &scored);
                }
            }
        } else {
            proof {
                lemma_below_diagonal(
                    pack,
                    score,
                    vectors@,
                    n as int,
                    dim,
                    use_symmetry,
                    scores_of(heaps.offers@),
                    arrivals(heaps.offers@),
                    row_start as int,
                    rows as int,
                    block.start as int,
                    block.start + block.len,
                );
            }
        }
        b += 1;
    }
    proof {
        lemma_row_block_done(
            pack,
            score,
            vectors@,
            n as int,
            dim,
            use_symmetry,
            scores_of(heaps.offers@),
            arrivals(heaps.offers@),
            row_start as int,
            rows as int,
        );
    }
}

/// What [`exact_knn_topk`] reports for another distance.
pub open spec fn other_distance(distance_type: DistanceType) -> Seq<char> {
    "exact_knn_topk: only DistanceType::Dot is implemented, got "@ + distance_type.label()
}

/// What [`exact_knn_topk`] reports where `n * dim` does not fit.
pub open spec fn too_large(n: nat, dim: nat) -> Seq<char> {
    "exact_knn_topk: n ("@ + decimal(n) + ") * dim ("@ + decimal(dim) + ") overflows usize"@
}

/// What [`exact_knn_topk`] reports for a partition of another length.
pub open spec fn wrong_length(len: nat, n: nat, dim: nat) -> Seq<char> {
    "exact_knn_topk: vectors holds "@ + decimal(len) + " values, expected n ("@ + decimal(n)
        + ") * dim ("@ + decimal(dim) + ") = "@ + decimal(n * dim)
}

/// What [`exact_knn_topk`] reports for more nodes than ids.
pub open spec fn too_many_nodes(n: nat) -> Seq<char> {
    "exact_knn_topk: n ("@ + decimal(n)
        + ") exceeds u32::MAX, so neighbour ids would not fit"@
}

/// What [`exact_knn_topk`] reports where there is no kernel.
pub open spec fn no_kernel(n: nat, dim: nat) -> Seq<char> {
    "exact_knn_topk: the AMX-FP16 GEMM is unavailable for n = "@ + decimal(n) + ", dim = "@
        + decimal(dim)
        + " (no kernel in this build, host without AMX-FP16, or LANCE_DISABLE_AMX set)"@
}

/// The error that the arguments alone call for, whatever the kernel.
pub open spec fn is_argument_error(
    len: nat,
    n: nat,
    dim: nat,
    distance_type: DistanceType,
    e: Error,
) -> bool {
    if distance_type != DistanceType::Dot {
        e is NotSupported && e.text() == other_distance(distance_type)
    } else if n * dim > usize::MAX {
        e is InvalidInput && e.text() == too_large(n, dim)
    } else if len != n * dim {
        e is InvalidInput && e.text() == wrong_length(len, n, dim)
    } else {
        e is InvalidInput && e.text() == too_many_nodes(n)
    }
}

/// Whether the arguments are ones that [`exact_knn_topk`] serves.
pub open spec fn is_partition(len: nat, n: nat, dim: nat, distance_type: DistanceType) -> bool {
    distance_type == DistanceType::Dot && len == n * dim && len <= usize::MAX && n <= u32::MAX
}

/// Whether each of `n` nodes has at least `k` others to list.
pub open spec fn has_enough(scores: Scores, n: int, k: int) -> bool {
    forall|node: int| 0 <= node < n ==> (#[trigger] admissible(scores, node)).len() >= k
}

/// The error for the first node of `n` that has fewer than `k` others to list.
pub open spec fn is_short_error(scores: Scores, n: int, k: int, e: Error) -> bool {
    e is InvalidInput && exists|node: int|
        #![trigger admissible(scores, node)]
        {
            &&& 0 <= node < n
            &&& admissible(scores, node).len() < k
            &&& forall|before: int|
                0 <= before < node ==> (#[trigger] admissible(scores, before)).len() >= k
            &&& e.text() == too_few_neighbours(
                node as nat,
                admissible(scores, node).len(),
                k as nat,
            )
        }
}

/// Refuses arguments that do not describe a partition.
fn check_partition(len: usize, n: usize, dim: usize, distance_type: DistanceType) -> (r: Result<
    (),
    Error,
>)
    ensures
        r is Ok <==> is_partition(len as nat, n as nat, dim as nat, distance_type),
        r matches Err(e) ==> is_argument_error(
            len as nat,
            n as nat,
            dim as nat,
            distance_type,
            e,
        ),
{
    if distance_type != DistanceType::Dot {
        let mut message = String::from_str(
            "exact_knn_topk: only DistanceType::Dot is implemented, got ",
        );
        message.append(distance_type.name());
        return Err(Error::NotSupported { message });
    }
    let expected: usize = match n.checked_mul(dim) {
        None => {
            let mut message = String::from_str("exact_knn_topk: n (");
            append_decimal(&mut message, n as u64);
            message.append(") * dim (");
            append_decimal(&mut message, dim as u64);
            message.append(") overflows usize");
            return Err(Error::InvalidInput { message });
        },
        Some(expected) => expected,
    };
    if len != expected {
        let mut message = String::from_str("exact_knn_topk: vectors holds ");
        append_decimal(&mut message, len as u64);
        message.append(" values, expected n (");
        append_decimal(&mut message, n as u64);
        message.append(") * dim (");
        append_decimal(&mut message, dim as u64);
        message.append(") = ");
        append_decimal(&mut message, expected as u64);
        return Err(Error::InvalidInput { message });
    }
    if n > u32::MAX as usize {
        let mut message = String::from_str("exact_knn_topk: n (");
        append_decimal(&mut message, n as u64);
        message.append(") exceeds u32::MAX, so neighbour ids would not fit");
        return Err(Error::InvalidInput { message });
    }
    Ok(())
}

/// [`exact_knn_topk`], with the symmetry optimisation switchable.
///
/// `use_symmetry == false` computes every block of the matrix and folds it into
/// its rows only. It is strictly more work for the same answer: every node is as
/// near its neighbours, and only which of several equally near ones it lists can
/// differ.
pub fn exact_knn_topk_blocked<P, Pack, Score>(
    vectors: &[u16],
    n: usize,
    dim: usize,
    k: usize,
    distance_type: DistanceType,
    use_symmetry: bool,
    pack: &Pack,
    score: &Score,
) -> (r: Result<ExactKnn, Error>) where
    Pack: Fn(&[u16], usize, usize) -> Option<(P, usize)>,
    Score: Fn(&P, &[u16], usize, usize, usize) -> Vec<Single>,

    requires
        kernel_ready(pack, score),
    ensures
        is_answer(pack, score, vectors@, n, dim, k, distance_type, use_symmetry, r),
{
    if let Err(e) = check_partition(vectors.len(), n, dim, distance_type) {
        return Err(e);
    }
    // A node can have at most `n - 1` neighbours other than itself, so a
    // partition smaller than `k + 1` gets shorter lists rather than an error.
    let others: usize = if n == 0 {
        0
    } else {
        n - 1
    };
    let k: usize = if k < others {
        k
    } else {
        others
    };
    if k == 0 {
        return Ok(
            ExactKnn { num_nodes: n, k: 0, ids: Vec::new(), distances: Vec::new() },
        );
    }
    let blocks = match pack_blocks(vectors, n, dim, pack) {
        None => {
            let mut message = String::from_str(
                "exact_knn_topk: the AMX-FP16 GEMM is unavailable for n = ",
            );
            append_decimal(&mut message, n as u64);
            message.append(", dim = ");
            append_decimal(&mut message, dim as u64);
            message.append(
                " (no kernel in this build, host without AMX-FP16, or LANCE_DISABLE_AMX set)",
            );
            return Err(Error::NotSupported { message });
        },
        Some(blocks) => blocks,
    };
    let mut heaps = match TopKHeaps::new(n, k) {
        Err(e) => {
            return Err(e);
        },
        Ok(heaps) => heaps,
    };
    // One mask bit per score; the column direction needs one mask word per row
    // of a block, the row direction one per 16 columns, so the larger wins.
    let mut masks: Vec<u16> = vec![0; ROW_BLOCK];
    let mut row_start: usize = 0;
    assert(vectors.len() == vectors@.len());
    proof {
        assert(scores_of(heaps.offers@) =~= Map::<(int, int), Single>::empty());
        assert forall|x: int| 0 <= x < n implies #[trigger] arrivals(heaps.offers@)[x]
            == Seq::<int>::empty() by {
            assert(arrivals(heaps.offers@)[x] =~= Seq::<int>::empty());
        }
        lemma_walk_begun(
            pack,
            score,
            vectors@,
            n as int,
            dim,
            use_symmetry,
            scores_of(heaps.offers@),
            arrivals(heaps.offers@),
        );
    }
    while row_start < n
        invariant
            kernel_ready(pack, score),
            vectors@.len() == n * dim,
            vectors.len() == vectors@.len(),
            row_start <= n <= u32::MAX,
            row_start < n ==> row_start % ROW_BLOCK == 0,
            blocks@.len() * COL_BLOCK >= n,
            forall|b: int|
                0 <= b < blocks@.len() ==> (#[trigger] blocks@[b]).is_block(
                    pack,
                    vectors@,
                    n as int,
                    dim,
                    b,
                ),
            heaps.holds_offers(),
            offered_once(heaps.offers@),
            heaps.n() == n,
            heaps.k == k,
            masks@.len() >= ROW_BLOCK,
            is_progress(
                pack,
                score,
                vectors@,
                n as int,
                dim,
                use_symmetry,
                scores_of(heaps.offers@),
                row_start as int,
                0,
                0,
            ),
            has_arrived(n as int, use_symmetry, row_start as int, 0, 0, arrivals(heaps.offers@)),
        decreases n - row_start,
    {
        let rows: usize = if n - row_start < ROW_BLOCK {
            n - row_start
        } else {
            ROW_BLOCK
        };
        let tiled_rows: usize = (rows + (TILE_ROWS - 1)) / TILE_ROWS * TILE_ROWS;
        // The kernel has no partial-tile path, so it must be given a whole
        // number of tiles to read.
        if tiled_rows > n - row_start {
            let data = padded_rows(vectors, n, dim, row_start, rows, tiled_rows);
            walk_row_block(
                vectors,
                n,
                dim,
                row_start,
                data.as_slice(),
                &blocks,
                use_symmetry,
                pack,
                score,
                &mut heaps,
                &mut masks,
            );
        } else {
            proof {
                lemma_scaled(row_start as int, n as int, dim as int);
            }
            let data: &[u16] = &vectors[row_start * dim..vectors.len()];
            walk_row_block(
                vectors,
                n,
                dim,
                row_start,
                data,
                &blocks,
                use_symmetry,
                pack,
                score,
                &mut heaps,
                &mut masks,
            );
        }
        row_start += rows;
    }
    let ghost scores = scores_of(heaps.offers@);
    let ghost arrived = arrivals(heaps.offers@);
    proof {
        lemma_walk_done(
            pack,
            score,
            vectors@,
            n as int,
            dim,
            use_symmetry,
            scores_of(heaps.offers@),
            arrivals(heaps.offers@),
        );
    }
    let r = heaps.into_knn(n);
    proof {
        if r is Ok {
            let knn = r->Ok_0;
            assert forall|node: int| 0 <= node < n implies lists_all(
                #[trigger] knn.ids_of(node),
                kept(arrival_order(n as int, use_symmetry, node), scores, node, k as int),
            ) by {
                assert(arrived[node] == arrival_order(n as int, use_symmetry, node));
            }
            assert(lists_kept(&knn, use_symmetry, scores));
        }
    }
    r
}

/// What [`exact_knn_topk_blocked`] answers: the error that the arguments call for
/// where they describe no partition, and otherwise the table or a refusal.
pub open spec fn is_answer<P, Pack, Score>(
    pack: &Pack,
    score: &Score,
    vectors: Seq<u16>,
    n: usize,
    dim: usize,
    k: usize,
    distance_type: DistanceType,
    symmetric: bool,
    r: Result<ExactKnn, Error>,
) -> bool where
    Pack: Fn(&[u16], usize, usize) -> Option<(P, usize)>,
    Score: Fn(&P, &[u16], usize, usize, usize) -> Vec<Single>,
 {
    if is_partition(vectors.len(), n as nat, dim as nat, distance_type) {
        is_table_or_refusal(
            pack,
            score,
            vectors,
            n,
            dim,
            listed(k as int, n as int),
            symmetric,
            r,
        )
    } else {
        r matches Err(e) && is_argument_error(
            vectors.len(),
            n as nat,
            dim as nat,
            distance_type,
            e,
        )
    }
}

/// What [`exact_knn_topk_blocked`] owes for a partition of which each node is to
/// list `k` others. Nothing is listed of none. Otherwise the table is exact by
/// what the kernel made of every pair, and of nodes with equal scores it lists those
/// that stay when they are offered as the walk brings them. It is refused where the
/// kernel declined a column block; where it packed them all and the table does not
/// fit; or where the table fits and too few of a node's scores are those of a
/// neighbour.
pub open spec fn is_table_or_refusal<P, Pack, Score>(
    pack: &Pack,
    score: &Score,
    vectors: Seq<u16>,
    n: usize,
    dim: usize,
    k: int,
    symmetric: bool,
    r: Result<ExactKnn, Error>,
) -> bool where
    Pack: Fn(&[u16], usize, usize) -> Option<(P, usize)>,
    Score: Fn(&P, &[u16], usize, usize, usize) -> Vec<Single>,
 {
    match r {
        Ok(knn) => {
            &&& knn.num_nodes == n
            &&& knn.k == k
            &&& knn.wf()
            &&& k > 0 ==> {
                &&& all_packed::<P, Pack>(pack, vectors, n as int, dim)
                &&& n * k <= usize::MAX
                &&& exists|scores: Scores|
                    {
                        &&& #[trigger] is_score_table(
                            pack,
                            score,
                            vectors,
                            n as int,
                            dim,
                            symmetric,
                            scores,
                        )
                        &&& has_enough(scores, n as int, k)
                        &&& knn.is_exact(scores)
                        &&& lists_kept(&knn, symmetric, scores)
                    }
            }
        },
        Err(e) => {
            &&& k > 0
            &&& {
                ||| exists|start: int|
                    {
                        &&& 0 <= start < n
                        &&& start % COL_BLOCK as int == 0
                        &&& #[trigger] declined_by::<P, Pack>(pack, vectors, n as int, dim, start)
                        &&& e is NotSupported
                        &&& e.text() == no_kernel(n as nat, dim as nat)
                    }
                ||| {
                    &&& all_packed::<P, Pack>(pack, vectors, n as int, dim)
                    &&& n * k > usize::MAX
                    &&& e is InvalidInput
                    &&& e.text() == too_many_slots(n as nat, k as nat)
                }
                ||| {
                    &&& all_packed::<P, Pack>(pack, vectors, n as int, dim)
                    &&& n * k <= usize::MAX
                    &&& exists|scores: Scores|
                        {
                            &&& #[trigger] is_score_table(
                                pack,
                                score,
                                vectors,
                                n as int,
                                dim,
                                symmetric,
                                scores,
                            )
                            &&& is_short_error(scores, n as int, k, e)
                        }
                }
            }
        },
    }
}

/// Computes the exact top-`k` nearest neighbours of every vector in `vectors`,
/// a row-major `[n, dim]` partition of half-precision bit patterns.
///
/// Only [`DistanceType::Dot`] is implemented, and only where `pack` does not
/// decline; every other combination returns [`Error::NotSupported`] so the caller
/// can fall back to incremental insertion.
pub fn exact_knn_topk<P, Pack, Score>(
    vectors: &[u16],
    n: usize,
    dim: usize,
    k: usize,
    distance_type: DistanceType,
    pack: &Pack,
    score: &Score,
) -> (r: Result<ExactKnn, Error>) where
    Pack: Fn(&[u16], usize, usize) -> Option<(P, usize)>,
    Score: Fn(&P, &[u16], usize, usize, usize) -> Vec<Single>,

    requires
        kernel_ready(pack, score),
    ensures
        is_answer(pack, score, vectors@, n, dim, k, distance_type, true, r),
{
    exact_knn_topk_blocked(vectors, n, dim, k, distance_type, true, pack, score)
}

/// A table that is exact by the scores of a partition lists, for each node,
/// distinct nodes of the partition other than the node itself, nearest first. No
/// padding of the kernel's can be among them.
pub proof fn lemma_lists_others<P, Pack, Score>(
    pack: &Pack,
    score: &Score,
    vectors: Seq<u16>,
    n: int,
    dim: usize,
    symmetric: bool,
    scores: Scores,
    knn: &ExactKnn,
    node: int,
) where
    Pack: Fn(&[u16], usize, usize) -> Option<(P, usize)>,
    Score: Fn(&P, &[u16], usize, usize, usize) -> Vec<Single>,

    requires
        is_score_table(pack, score, vectors, n, dim, symmetric, scores),
        knn.is_exact(scores),
        knn.num_nodes == n,
        0 <= node < n,
    ensures
        forall|r: int|
            0 <= r < knn.k ==> 0 <= (#[trigger] knn.ids_of(node)[r]) < n && knn.ids_of(node)[r]
                != node,
        knn.ids_of(node).no_duplicates(),
        forall|r: int, s: int|
            0 <= r < s < knn.k ==> (#[trigger] knn.distances_of(node)[r]).total_rank() <= (
            #[trigger] knn.distances_of(node)[s]).total_rank(),
{
    let ids = knn.ids_of(node);
    let distances = knn.distances_of(node);
    lemma_row_fits(node, n, knn.k as int);
    assert(is_exact_at(knn.ids@, knn.distances@, knn.k as int, scores, node));
    lemma_row_has_no_duplicates(ids, distances, scores, node);
    lemma_row_ascends(ids, distances, scores, node);
    assert forall|r: int| 0 <= r < knn.k implies 0 <= (#[trigger] ids[r]) < n && ids[r] != node by {
        assert(scores.contains_key((node, ids[r] as int)));
    }
}

/// Where each node lists one fewer than there are nodes, it lists every other
/// node.
pub proof fn lemma_lists_every_other<P, Pack, Score>(
    pack: &Pack,
    score: &Score,
    vectors: Seq<u16>,
    n: int,
    dim: usize,
    symmetric: bool,
    scores: Scores,
    knn: &ExactKnn,
    node: int,
    other: u32,
) where
    Pack: Fn(&[u16], usize, usize) -> Option<(P, usize)>,
    Score: Fn(&P, &[u16], usize, usize, usize) -> Vec<Single>,

    requires
        is_score_table(pack, score, vectors, n, dim, symmetric, scores),
        knn.is_exact(scores),
        knn.num_nodes == n,
        knn.k == n - 1,
        0 <= node < n,
        other < n,
        other != node,
    ensures
        knn.ids_of(node).contains(other),
{
    let ids = knn.ids_of(node);
    lemma_lists_others(pack, score, vectors, n, dim, symmetric, scores, knn, node);
    lemma_row_fits(node, n, knn.k as int);
    let named = ids.map_values(|id: u32| id as int);
    let others = vstd::set_lib::set_int_range(0, n).remove(node);
    vstd::set_lib::lemma_int_range(0, n);
    assert(named.no_duplicates());
    named.unique_seq_to_set();
    assert forall|id: int| #[trigger] named.to_set().contains(id) implies others.contains(id) by {
        let r = choose|r: int| 0 <= r < named.len() && named[r] == id;
        assert(id == ids[r]);
    }
    vstd::seq_lib::seq_to_set_is_finite(named);
    vstd::set_lib::lemma_subset_equality(named.to_set(), others);
    assert(others.contains(other as int));
    assert(named.contains(other as int));
    let r = choose|r: int| 0 <= r < named.len() && named[r] == other as int;
    assert(ids[r] == other);
}

/// Whether the kernel either packs a column block of a partition or declines it,
/// however often it is asked.
pub open spec fn kernel_decides<P, Pack>(pack: &Pack, vectors: Seq<u16>, n: int, dim: usize) -> bool where
    Pack: Fn(&[u16], usize, usize) -> Option<(P, usize)>,
 {
    forall|start: int|
        0 <= start < n && start % COL_BLOCK as int == 0 && #[trigger] declined_by::<P, Pack>(
            pack,
            vectors,
            n,
            dim,
            start,
        ) ==> !is_packed::<P, Pack>(pack, vectors, n, dim, start)
}

/// Whether the kernel scores each node of a partition as a row against each other as
/// a column at one value, however often it is asked.
pub open spec fn kernel_is_function<P, Pack, Score>(
    pack: &Pack,
    score: &Score,
    vectors: Seq<u16>,
    n: int,
    dim: usize,
) -> bool where
    Pack: Fn(&[u16], usize, usize) -> Option<(P, usize)>,
    Score: Fn(&P, &[u16], usize, usize, usize) -> Vec<Single>,
 {
    forall|i: int, j: int, s: Single, t: Single|
        is_pair((i, j), n) && #[trigger] kernel_scored(
            pack,
            score,
            vectors,
            n,
            dim,
            i,
            j,
            s,
        ) && #[trigger] kernel_scored(
            pack,
            score,
            vectors,
            n,
            dim,
            i,
            j,
            t,
        ) ==> s == t
}

/// The scores of one walk are the same each time where the kernel is a function.
proof fn lemma_one_score_table<P, Pack, Score>(
    pack: &Pack,
    score: &Score,
    vectors: Seq<u16>,
    n: int,
    dim: usize,
    symmetric: bool,
    a: Scores,
    b: Scores,
) where
    Pack: Fn(&[u16], usize, usize) -> Option<(P, usize)>,
    Score: Fn(&P, &[u16], usize, usize, usize) -> Vec<Single>,

    requires
        kernel_is_function(pack, score, vectors, n, dim),
        is_score_table(pack, score, vectors, n, dim, symmetric, a),
        is_score_table(pack, score, vectors, n, dim, symmetric, b),
    ensures
        a == b,
{
    assert(a.dom() =~= b.dom()) by {
        assert forall|x: (int, int)| #[trigger] a.dom().contains(x) <==> b.dom().contains(
            x,
        ) by {
            assert(a.contains_key(x) <==> b.contains_key(x));
        }
    }
    assert forall|x: (int, int)| #[trigger] a.contains_key(x) implies a[x] == b[x] by {
        assert(b.contains_key(x));
    }
    assert(a =~= b);
}

/// One walk of one partition makes one table, equal scores or not, where the kernel
/// is a function.
pub proof fn lemma_one_table<P, Pack, Score>(
    pack: &Pack,
    score: &Score,
    vectors: Seq<u16>,
    n: usize,
    dim: usize,
    k: int,
    symmetric: bool,
    one: ExactKnn,
    other: ExactKnn,
) where
    Pack: Fn(&[u16], usize, usize) -> Option<(P, usize)>,
    Score: Fn(&P, &[u16], usize, usize, usize) -> Vec<Single>,

    requires
        kernel_is_function(pack, score, vectors, n as int, dim),
        is_table_or_refusal(pack, score, vectors, n, dim, k, symmetric, Ok(one)),
        is_table_or_refusal(pack, score, vectors, n, dim, k, symmetric, Ok(other)),
    ensures
        one.ids@ == other.ids@,
        one.distances@ == other.distances@,
{
    if k > 0 {
        let a = choose|a: Scores|
            {
                &&& #[trigger] is_score_table(pack, score, vectors, n as int, dim, symmetric, a)
                &&& one.is_exact(a)
                &&& lists_kept(&one, symmetric, a)
            };
        let b = choose|b: Scores|
            {
                &&& #[trigger] is_score_table(pack, score, vectors, n as int, dim, symmetric, b)
                &&& other.is_exact(b)
                &&& lists_kept(&other, symmetric, b)
            };
        lemma_one_score_table(pack, score, vectors, n as int, dim, symmetric, a, b);
        one.lemma_exact_tables_agree(&other, a);
        assert forall|p: int| 0 <= p < one.ids@.len() implies #[trigger] one.ids@[p]
            == other.ids@[p] by {
            let node = lemma_slot_owner(p, n as int, k);
            lemma_row_fits(node, n as int, k);
            assert(is_exact_at(one.ids@, one.distances@, k, a, node));
            assert(is_exact_at(other.ids@, other.distances@, k, a, node));
            let heap = kept(arrival_order(n as int, symmetric, node), a, node, k);
            assert(lists_all(one.ids_of(node), heap) && lists_all(other.ids_of(node), heap));
            lemma_one_row(
                one.ids_of(node),
                one.distances_of(node),
                other.ids_of(node),
                other.distances_of(node),
                a,
                node,
            );
            assert(one.ids_of(node)[p - node * k] == one.ids@[p]);
            assert(other.ids_of(node)[p - node * k] == other.ids@[p]);
        }
        assert(one.ids@ =~= other.ids@);
    } else {
        assert(n * k == 0) by (nonlinear_arith)
            requires
                k == 0,
        ;
        assert(one.distances@ =~= other.distances@);
        assert(one.ids@ =~= other.ids@);
    }
}

/// Whether the kernel's scores of the pairs of a partition are a function of the
/// pair, the same for both orders.
pub open spec fn kernel_computes<P, Pack, Score>(
    pack: &Pack,
    score: &Score,
    vectors: Seq<u16>,
    n: int,
    dim: usize,
    dot: spec_fn(int, int) -> Single,
) -> bool where
    Pack: Fn(&[u16], usize, usize) -> Option<(P, usize)>,
    Score: Fn(&P, &[u16], usize, usize, usize) -> Vec<Single>,
 {
    &&& forall|i: int, j: int, s: Single|
        is_pair((i, j), n) && #[trigger] kernel_scored(
            pack,
            score,
            vectors,
            n,
            dim,
            i,
            j,
            s,
        ) ==> s == dot(i, j)
    &&& forall|i: int, j: int| #[trigger] dot(i, j) == dot(j, i)
}

/// The scores of every pair of distinct nodes by `dot`.
pub open spec fn scores_by(n: int, dot: spec_fn(int, int) -> Single) -> Scores {
    Map::new(|x: (int, int)| is_pair(x, n), |x: (int, int)| dot(x.0, x.1))
}

/// Whichever walk is taken, every pair is scored as the kernel does, where the
/// kernel is a symmetric function of the pair.
pub proof fn lemma_walks_score_alike<P, Pack, Score>(
    pack: &Pack,
    score: &Score,
    vectors: Seq<u16>,
    n: int,
    dim: usize,
    dot: spec_fn(int, int) -> Single,
    symmetric: bool,
    scores: Scores,
) where
    Pack: Fn(&[u16], usize, usize) -> Option<(P, usize)>,
    Score: Fn(&P, &[u16], usize, usize, usize) -> Vec<Single>,

    requires
        kernel_computes(pack, score, vectors, n, dim, dot),
        is_score_table(pack, score, vectors, n, dim, symmetric, scores),
    ensures
        scores == scores_by(n, dot),
{
    let all = scores_by(n, dot);
    assert forall|x: (int, int)| #[trigger] scores.contains_key(x) implies scores[x] == all[x] by {
        assert(dot(x.0, x.1) == dot(x.1, x.0));
    }
    assert(scores.dom() =~= all.dom()) by {
        assert forall|x: (int, int)| #[trigger] scores.dom().contains(x) <==> all.dom().contains(
            x,
        ) by {
            assert(scores.contains_key(x) <==> is_pair(x, n));
        }
    }
    assert(scores =~= all);
}

/// Tables of one partition give the same distances, and the same neighbours of every
/// node whose cut is clear, whichever walks made them: that of one triangle or that
/// of the whole matrix.
pub proof fn lemma_walks_agree<P, Pack, Score>(
    pack: &Pack,
    score: &Score,
    vectors: Seq<u16>,
    n: usize,
    dim: usize,
    k: int,
    dot: spec_fn(int, int) -> Single,
    symmetric: bool,
    one: ExactKnn,
    also_symmetric: bool,
    other: ExactKnn,
) where
    Pack: Fn(&[u16], usize, usize) -> Option<(P, usize)>,
    Score: Fn(&P, &[u16], usize, usize, usize) -> Vec<Single>,

    requires
        kernel_computes(pack, score, vectors, n as int, dim, dot),
        is_table_or_refusal(pack, score, vectors, n, dim, k, symmetric, Ok(one)),
        is_table_or_refusal(pack, score, vectors, n, dim, k, also_symmetric, Ok(other)),
    ensures
        one.distances@ == other.distances@,
        forall|node: int|
            0 <= node < n && #[trigger] has_clear_cut(scores_by(n as int, dot), node, k)
                ==> one.ids_of(node) == other.ids_of(node),
{
    if k > 0 {
        let a = choose|a: Scores|
            #[trigger] is_score_table(pack, score, vectors, n as int, dim, symmetric, a)
                && one.is_exact(a);
        let b = choose|b: Scores|
            #[trigger] is_score_table(pack, score, vectors, n as int, dim, also_symmetric, b)
                && other.is_exact(b);
        lemma_walks_score_alike(pack, score, vectors, n as int, dim, dot, symmetric, a);
        lemma_walks_score_alike(pack, score, vectors, n as int, dim, dot, also_symmetric, b);
        one.lemma_exact_tables_agree(&other, a);
    } else {
        assert(n * k == 0) by (nonlinear_arith)
            requires
                k == 0,
        ;
        assert(one.distances@ =~= other.distances@);
        assert(one.ids@ =~= other.ids@);
    }
}

/// Scores that give every node enough others to list leave no short node to report,
/// and there is one first short node at most.
proof fn lemma_one_short_error(scores: Scores, n: int, k: int, one: Error)
    requires
        is_short_error(scores, n, k, one),
    ensures
        !has_enough(scores, n, k),
        forall|other: Error| #[trigger] is_short_error(scores, n, k, other) ==> one.says(other),
{
    let a = choose|a: int|
        #![trigger admissible(scores, a)]
        {
            &&& 0 <= a < n
            &&& admissible(scores, a).len() < k
            &&& forall|before: int|
                0 <= before < a ==> (#[trigger] admissible(scores, before)).len() >= k
            &&& one.text() == too_few_neighbours(a as nat, admissible(scores, a).len(), k as nat)
        };
    assert forall|other: Error| #[trigger] is_short_error(scores, n, k, other) implies one.says(
        other,
    ) by {
        let b = choose|b: int|
            #![trigger admissible(scores, b)]
            {
                &&& 0 <= b < n
                &&& admissible(scores, b).len() < k
                &&& forall|before: int|
                    0 <= before < b ==> (#[trigger] admissible(scores, before)).len() >= k
                &&& other.text() == too_few_neighbours(
                    b as nat,
                    admissible(scores, b).len(),
                    k as nat,
                )
            };
        if a < b {
            assert(admissible(scores, a).len() >= k);
        } else if b < a {
            assert(admissible(scores, b).len() >= k);
        }
    }
}

/// Whichever walk is taken, the answer is the same, for any arguments and a kernel
/// that is a symmetric function: both walks report the same error, or both give a
/// table, of one shape, with the same distances and, for every node whose cut is
/// clear, the same neighbours.
pub proof fn lemma_walks_answer_alike<P, Pack, Score>(
    pack: &Pack,
    score: &Score,
    vectors: Seq<u16>,
    n: usize,
    dim: usize,
    k: usize,
    distance_type: DistanceType,
    dot: spec_fn(int, int) -> Single,
    symmetric: bool,
    one: Result<ExactKnn, Error>,
    also_symmetric: bool,
    other: Result<ExactKnn, Error>,
) where
    Pack: Fn(&[u16], usize, usize) -> Option<(P, usize)>,
    Score: Fn(&P, &[u16], usize, usize, usize) -> Vec<Single>,

    requires
        kernel_decides::<P, Pack>(pack, vectors, n as int, dim),
        kernel_computes(pack, score, vectors, n as int, dim, dot),
        is_answer(pack, score, vectors, n, dim, k, distance_type, symmetric, one),
        is_answer(pack, score, vectors, n, dim, k, distance_type, also_symmetric, other),
    ensures
        one is Ok <==> other is Ok,
        one matches Err(e) ==> e.says(other->Err_0),
        one matches Ok(a) ==> {
            let b = other->Ok_0;
            &&& a.num_nodes == b.num_nodes
            &&& a.k == b.k
            &&& a.distances@ == b.distances@
            &&& forall|node: int|
                0 <= node < n && #[trigger] has_clear_cut(
                    scores_by(n as int, dot),
                    node,
                    listed(k as int, n as int),
                ) ==> a.ids_of(node) == b.ids_of(node)
        },
{
    if is_partition(vectors.len(), n as nat, dim as nat, distance_type) {
        let m = listed(k as int, n as int);
        let all = scores_by(n as int, dot);
        lemma_answer_by_scores(pack, score, vectors, n, dim, m, dot, symmetric, one);
        lemma_answer_by_scores(pack, score, vectors, n, dim, m, dot, also_symmetric, other);
        if one is Err && is_short_error(all, n as int, m, one->Err_0) {
            lemma_one_short_error(all, n as int, m, one->Err_0);
        }
        if other is Err && is_short_error(all, n as int, m, other->Err_0) {
            lemma_one_short_error(all, n as int, m, other->Err_0);
        }
        if one is Ok && other is Ok {
            lemma_walks_agree(
                pack,
                score,
                vectors,
                n,
                dim,
                m,
                dot,
                symmetric,
                one->Ok_0,
                also_symmetric,
                other->Ok_0,
            );
        }
    }
}

/// Which answer a walk gives, by the scores that the kernel computes.
proof fn lemma_answer_by_scores<P, Pack, Score>(
    pack: &Pack,
    score: &Score,
    vectors: Seq<u16>,
    n: usize,
    dim: usize,
    k: int,
    dot: spec_fn(int, int) -> Single,
    symmetric: bool,
    r: Result<ExactKnn, Error>,
) where
    Pack: Fn(&[u16], usize, usize) -> Option<(P, usize)>,
    Score: Fn(&P, &[u16], usize, usize, usize) -> Vec<Single>,

    requires
        kernel_decides::<P, Pack>(pack, vectors, n as int, dim),
        kernel_computes(pack, score, vectors, n as int, dim, dot),
        is_table_or_refusal(pack, score, vectors, n, dim, k, symmetric, r),
    ensures
        r is Err ==> k > 0,
        k > 0 && !all_packed::<P, Pack>(pack, vectors, n as int, dim) ==> (r matches Err(e)
            && e is NotSupported && e.text() == no_kernel(n as nat, dim as nat)),
        k > 0 && all_packed::<P, Pack>(pack, vectors, n as int, dim) && n * k > usize::MAX ==> (
        r matches Err(e) && e is InvalidInput && e.text() == too_many_slots(n as nat, k as nat)),
        k > 0 && all_packed::<P, Pack>(pack, vectors, n as int, dim) && n * k <= usize::MAX ==> (
        if has_enough(scores_by(n as int, dot), n as int, k) {
            r is Ok
        } else {
            r matches Err(e) && is_short_error(scores_by(n as int, dot), n as int, k, e)
        }),
{
    let all = scores_by(n as int, dot);
    if k > 0 {
        match r {
            Ok(knn) => {
                let a = choose|a: Scores|
                    {
                        &&& #[trigger] is_score_table(
                            pack,
                            score,
                            vectors,
                            n as int,
                            dim,
                            symmetric,
                            a,
                        )
                        &&& has_enough(a, n as int, k)
                        &&& knn.is_exact(a)
                        &&& lists_kept(&knn, symmetric, a)
                    };
                lemma_walks_score_alike(pack, score, vectors, n as int, dim, dot, symmetric, a);
            },
            Err(e) => {
                if exists|a: Scores|
                    {
                        &&& #[trigger] is_score_table(
                            pack,
                            score,
                            vectors,
                            n as int,
                            dim,
                            symmetric,
                            a,
                        )
                        &&& is_short_error(a, n as int, k, e)
                    } {
                    let a = choose|a: Scores|
                        {
                            &&& #[trigger] is_score_table(
                                pack,
                                score,
                                vectors,
                                n as int,
                                dim,
                                symmetric,
                                a,
                            )
                            &&& is_short_error(a, n as int, k, e)
                        };
                    lemma_walks_score_alike(
                        pack,
                        score,
                        vectors,
                        n as int,
                        dim,
                        dot,
                        symmetric,
                        a,
                    );
                    lemma_one_short_error(all, n as int, k, e);
                }
            },
        }
    }
}

/// One walk answers the same each time where the kernel is a function: the same
/// table, or an error of the same kind that says the same.
pub proof fn lemma_one_answer<P, Pack, Score>(
    pack: &Pack,
    score: &Score,
    vectors: Seq<u16>,
    n: usize,
    dim: usize,
    k: int,
    symmetric: bool,
    r: Result<ExactKnn, Error>,
    s: Result<ExactKnn, Error>,
) where
    Pack: Fn(&[u16], usize, usize) -> Option<(P, usize)>,
    Score: Fn(&P, &[u16], usize, usize, usize) -> Vec<Single>,

    requires
        kernel_decides::<P, Pack>(pack, vectors, n as int, dim),
        kernel_is_function(pack, score, vectors, n as int, dim),
        is_table_or_refusal(pack, score, vectors, n, dim, k, symmetric, r),
        is_table_or_refusal(pack, score, vectors, n, dim, k, symmetric, s),
    ensures
        match (r, s) {
            (Ok(one), Ok(other)) => {
                &&& one.num_nodes == other.num_nodes
                &&& one.k == other.k
                &&& one.ids@ == other.ids@
                &&& one.distances@ == other.distances@
            },
            (Err(e), Err(f)) => e.says(f),
            _ => false,
        },
{
    if r is Ok && s is Ok {
        lemma_one_table(pack, score, vectors, n, dim, k, symmetric, r->Ok_0, s->Ok_0);
    } else if r is Err {
        lemma_refused_again(pack, score, vectors, n, dim, k, symmetric, r->Err_0, s);
    } else {
        lemma_refused_again(pack, score, vectors, n, dim, k, symmetric, s->Err_0, r);
    }
}

/// What was refused once is refused again, in the same words.
proof fn lemma_refused_again<P, Pack, Score>(
    pack: &Pack,
    score: &Score,
    vectors: Seq<u16>,
    n: usize,
    dim: usize,
    k: int,
    symmetric: bool,
    e: Error,
    s: Result<ExactKnn, Error>,
) where
    Pack: Fn(&[u16], usize, usize) -> Option<(P, usize)>,
    Score: Fn(&P, &[u16], usize, usize, usize) -> Vec<Single>,

    requires
        kernel_decides::<P, Pack>(pack, vectors, n as int, dim),
        kernel_is_function(pack, score, vectors, n as int, dim),
        is_table_or_refusal(pack, score, vectors, n, dim, k, symmetric, Err(e)),
        is_table_or_refusal(pack, score, vectors, n, dim, k, symmetric, s),
    ensures
        s matches Err(f) && e.says(f),
{
    if all_packed::<P, Pack>(pack, vectors, n as int, dim) && n * k <= usize::MAX {
        let a = choose|a: Scores|
            #[trigger] is_score_table(pack, score, vectors, n as int, dim, symmetric, a)
                && is_short_error(a, n as int, k, e);
        lemma_one_short_error(a, n as int, k, e);
        match s {
            Ok(knn) => {
                let b = choose|b: Scores|
                    #[trigger] is_score_table(pack, score, vectors, n as int, dim, symmetric, b)
                        && has_enough(b, n as int, k);
                lemma_one_score_table(pack, score, vectors, n as int, dim, symmetric, a, b);
            },
            Err(f) => {
                let b = choose|b: Scores|
                    #[trigger] is_score_table(pack, score, vectors, n as int, dim, symmetric, b)
                        && is_short_error(b, n as int, k, f);
                lemma_one_score_table(pack, score, vectors, n as int, dim, symmetric, a, b);
            },
        }
    }
}

/// The vector at position `at` of vectors of `dim` values each.
pub open spec fn vector_at(vectors: Seq<u16>, dim: int, at: int) -> Seq<u16> {
    vectors.subrange(at * dim, at * dim + dim)
}

/// What the kernel is handed for a block are vectors of the partition, from the block's
/// first one on: row `r` of the row block at `start` is vector `start + r`, value for
/// value, and so is column `r` of the column block there; a row past the last vector is
/// of zeros.
pub proof fn lemma_block_holds_its_vectors(
    vectors: Seq<u16>,
    n: int,
    dim: int,
    start: int,
    r: int,
    c: int,
)
    requires
        vectors.len() == n * dim,
        0 <= start < n,
        0 <= c < dim,
    ensures
        0 <= r < ROW_BLOCK && start + r < n ==> {
            &&& r * dim + c < row_operand(vectors, n, dim, start).len()
            &&& row_operand(vectors, n, dim, start)[r * dim + c] == vectors[(start + r) * dim + c]
        },
        0 <= r < COL_BLOCK && start + r < n ==> {
            &&& r * dim + c < column_operand(vectors, n, dim, start).len()
            &&& column_operand(vectors, n, dim, start)[r * dim + c] == vectors[(start + r) * dim
                + c]
        },
        0 <= r < ROW_BLOCK && start + r >= n && r * dim + c < row_operand(
            vectors,
            n,
            dim,
            start,
        ).len() ==> row_operand(vectors, n, dim, start)[r * dim + c] == 0,
{
    let (rows, cols) = (rows_at(n, start), cols_at(n, start));
    lemma_scaled(start + rows, n, dim);
    lemma_scaled(start + cols, n, dim);
    if 0 <= r && start + r < n {
        lemma_value_inside(start, r, n, dim, c);
        if r < rows {
            lemma_value_inside(start, r, start + rows, dim, c);
        }
        if r < cols {
            lemma_value_inside(start, r, start + cols, dim, c);
        }
    }
    if start + r >= n {
        lemma_scaled(n - start, r, dim);
        lemma_scaled(start, n, dim);
        lemma_scaled(start, start + rows, dim);
    }
}

/// Where value `c` of vector `start + r` stands, among the vectors from `start` up to
/// `end`.
proof fn lemma_value_inside(start: int, r: int, end: int, dim: int, c: int)
    by (nonlinear_arith)
    requires
        0 <= start,
        0 <= r,
        start + r < end,
        0 <= c < dim,
    ensures
        (start + r) * dim + c == start * dim + (r * dim + c),
        0 <= start * dim <= end * dim,
        0 <= r * dim + c < end * dim - start * dim,
{
}

/// [`lemma_block_holds_its_vectors`], of whole vectors.
proof fn lemma_block_vectors(vectors: Seq<u16>, n: int, dim: int, start: int, r: int)
    requires
        vectors.len() == n * dim,
        0 <= dim,
        0 <= start < n,
        0 <= r,
        start + r < n,
    ensures
        r < ROW_BLOCK ==> vector_at(row_operand(vectors, n, dim, start), dim, r) == vector_at(
            vectors,
            dim,
            start + r,
        ),
        r < COL_BLOCK ==> vector_at(column_operand(vectors, n, dim, start), dim, r) == vector_at(
            vectors,
            dim,
            start + r,
        ),
{
    let own = vector_at(vectors, dim, start + r);
    lemma_row_fits(start + r, n, dim);
    if r < ROW_BLOCK {
        let rows = row_operand(vectors, n, dim, start);
        lemma_row_fits(r, r + 1, dim);
        if dim > 0 {
            lemma_block_holds_its_vectors(vectors, n, dim, start, r, dim - 1);
        } else {
            assert(r * dim == 0) by (nonlinear_arith)
                requires
                    dim == 0,
            ;
        }
        assert(r * dim + dim <= rows.len());
        assert forall|c: int| 0 <= c < dim implies #[trigger] vector_at(rows, dim, r)[c]
            == own[c] by {
            lemma_block_holds_its_vectors(vectors, n, dim, start, r, c);
        }
        assert(vector_at(rows, dim, r) =~= own);
    }
    if r < COL_BLOCK {
        let columns = column_operand(vectors, n, dim, start);
        lemma_row_fits(r, r + 1, dim);
        if dim > 0 {
            lemma_block_holds_its_vectors(vectors, n, dim, start, r, dim - 1);
        } else {
            assert(r * dim == 0) by (nonlinear_arith)
                requires
                    dim == 0,
            ;
        }
        assert(r * dim + dim <= columns.len());
        assert forall|c: int| 0 <= c < dim implies #[trigger] vector_at(columns, dim, r)[c]
            == own[c] by {
            lemma_block_holds_its_vectors(vectors, n, dim, start, r, c);
        }
        assert(vector_at(columns, dim, r) =~= own);
    }
}

/// The score of row `r` and column `j` in what the kernel returned, `stride` to a row.
pub open spec fn score_at(out: Seq<Single>, stride: int, r: int, j: int) -> Single {
    out[r * stride + j]
}

/// Whether the kernel scores by the vectors alone: whatever columns it packed and
/// whatever rows it is handed, its score of a row and a column is `f` of the two.
pub open spec fn kernel_scores_vectors<P, Pack, Score>(
    pack: &Pack,
    score: &Score,
    f: spec_fn(Seq<u16>, Seq<u16>) -> Single,
) -> bool where
    Pack: Fn(&[u16], usize, usize) -> Option<(P, usize)>,
    Score: Fn(&P, &[u16], usize, usize, usize) -> Vec<Single>,
 {
    forall|
        c: &[u16],
        len: usize,
        dim: usize,
        p: P,
        stride: usize,
        v: &[u16],
        rows: usize,
        out: Vec<Single>,
        r: int,
        j: int,
    |
        #![trigger
            call_ensures(*pack, (c, len, dim), Some((p, stride))),
            call_ensures(*score, (&p, v, rows, dim, stride), out),
            score_at(out@, stride as int, r, j)
        ]
        {
            &&& call_ensures(*pack, (c, len, dim), Some((p, stride)))
            &&& call_ensures(*score, (&p, v, rows, dim, stride), out)
            &&& c@.len() == len * dim
            &&& v@.len() >= rows * dim
            &&& 0 <= r < rows
            &&& 0 <= j < len
        } ==> score_at(out@, stride as int, r, j) == f(
            vector_at(v@, dim as int, r),
            vector_at(c@, dim as int, j),
        )
}

/// Whether the kernel packs whatever it is handed.
pub open spec fn kernel_always_packs<P, Pack>(pack: &Pack) -> bool where
    Pack: Fn(&[u16], usize, usize) -> Option<(P, usize)>,
 {
    forall|c: &[u16], len: usize, dim: usize| !#[trigger]
        call_ensures(*pack, (c, len, dim), None::<(P, usize)>)
}

/// Whether the order of two vectors does not matter to `f`.
pub open spec fn is_commutative(f: spec_fn(Seq<u16>, Seq<u16>) -> Single) -> bool {
    forall|a: Seq<u16>, b: Seq<u16>| #[trigger] f(a, b) == f(b, a)
}

/// What a kernel that scores by the vectors makes of two nodes is `f` of the vectors of
/// those two nodes.
pub proof fn lemma_nodes_scored_by_vectors<P, Pack, Score>(
    pack: &Pack,
    score: &Score,
    vectors: Seq<u16>,
    n: int,
    dim: usize,
    f: spec_fn(Seq<u16>, Seq<u16>) -> Single,
    i: int,
    j: int,
    dot: Single,
) where
    Pack: Fn(&[u16], usize, usize) -> Option<(P, usize)>,
    Score: Fn(&P, &[u16], usize, usize, usize) -> Vec<Single>,

    requires
        vectors.len() == n * dim,
        n <= u32::MAX,
        kernel_scores_vectors(pack, score, f),
        kernel_scored(pack, score, vectors, n, dim, i, j, dot),
        0 <= i < n,
        0 <= j < n,
    ensures
        dot == f(vector_at(vectors, dim as int, i), vector_at(vectors, dim as int, j)),
{
    let (row_start, col_start) = (row_start_of(i), col_start_of(j));
    let (r, c) = (i - row_start, j - col_start);
    let (rows, cols) = (rows_at(n, row_start), cols_at(n, col_start));
    let (stride, out) = choose|stride: usize, out: Vec<Single>|
        {
            &&& #[trigger] scored_by(
                pack,
                score,
                vectors,
                n,
                dim,
                row_start,
                col_start,
                stride,
                out,
            )
            &&& dot == out@[r * stride + c]
        };
    let (packed, v) = choose|packed: P, v: &[u16]|
        {
            &&& packed_by(pack, vectors, n, dim, col_start, packed, stride)
            &&& v@ == row_operand(vectors, n, dim as int, row_start)
            &&& #[trigger] call_ensures(
                *score,
                (&packed, v, tiled(rows) as usize, dim, stride),
                out,
            )
        };
    let columns = choose|columns: &[u16]|
        columns@ == column_operand(vectors, n, dim as int, col_start) && #[trigger] call_ensures(
            *pack,
            (columns, cols as usize, dim),
            Some((packed, stride)),
        );
    assert(0 <= r < rows <= tiled(rows) <= ROW_BLOCK);
    assert(0 <= c < cols);
    lemma_scaled(col_start, col_start + cols, dim as int);
    lemma_scaled(col_start + cols, n, dim as int);
    lemma_scaled(row_start, row_start + rows, dim as int);
    lemma_scaled(row_start + rows, n, dim as int);
    lemma_scaled(rows, tiled(rows), dim as int);
    if row_start + tiled(rows) <= n {
        lemma_scaled(row_start, row_start + tiled(rows), dim as int);
        lemma_scaled(row_start + tiled(rows), n, dim as int);
        lemma_scaled(row_start, n, dim as int);
    }
    assert(v@.len() >= tiled(rows) * dim);
    assert(columns@.len() == cols * dim);
    assert(dot == score_at(out@, stride as int, r, c));
    lemma_block_vectors(vectors, n, dim as int, row_start, r);
    lemma_block_vectors(vectors, n, dim as int, col_start, c);
}

/// Neighbour `rank` of `node` in a table, and its distance.
pub open spec fn neighbour_at(knn: &ExactKnn, node: int, rank: int) -> (u32, Single) {
    (knn.ids@[node * knn.k + rank], knn.distances@[node * knn.k + rank])
}

/// Whether a score is that of a neighbour: a number above negative infinity.
pub open spec fn is_score(dot: Single) -> bool {
    dot.greater(Single { bits: 0xff80_0000 })
}

/// The others of `n` vectors that can be neighbours of the one at `node`.
pub open spec fn possible_neighbours(
    vectors: Seq<u16>,
    n: int,
    dim: int,
    f: spec_fn(Seq<u16>, Seq<u16>) -> Single,
    node: int,
) -> Set<int> {
    Set::new(
        |other: int|
            0 <= other < n && other != node && is_score(
                f(vector_at(vectors, dim, node), vector_at(vectors, dim, other)),
            ),
    )
}

/// Whether a table lists, for each of `n` vectors, `k` others nearest to it by `f`:
/// each at one less its score, no one twice, nearest first and by id where two score
/// the same, and none left out that scores higher than one of them.
pub open spec fn is_nearest_table(
    knn: &ExactKnn,
    vectors: Seq<u16>,
    n: int,
    dim: int,
    k: int,
    f: spec_fn(Seq<u16>, Seq<u16>) -> Single,
) -> bool {
    let dot = |a: int, b: int| f(vector_at(vectors, dim, a), vector_at(vectors, dim, b));
    &&& knn.num_nodes == n
    &&& knn.k == k
    &&& knn.ids@.len() == n * k
    &&& knn.distances@.len() == n * k
    &&& forall|node: int, rank: int|
        #![trigger neighbour_at(knn, node, rank)]
        0 <= node < n && 0 <= rank < k ==> {
            let (id, distance) = neighbour_at(knn, node, rank);
            &&& id < n
            &&& id != node
            &&& is_score(dot(node, id as int))
            &&& dot(node, id as int).is_one_minus(distance)
        }
    &&& forall|node: int, rank: int, later: int|
        #![trigger neighbour_at(knn, node, rank), neighbour_at(knn, node, later)]
        0 <= node < n && 0 <= rank < later < k ==> {
            let (id, other) = (
                neighbour_at(knn, node, rank).0 as int,
                neighbour_at(knn, node, later).0 as int,
            );
            &&& id != other
            &&& !dot(node, other).greater(dot(node, id))
            &&& dot(node, other) == dot(node, id) ==> id < other
        }
    &&& forall|node: int, other: int, rank: int|
        #![trigger vector_at(vectors, dim, other), neighbour_at(knn, node, rank)]
        0 <= node < n && 0 <= other < n && other != node && 0 <= rank < k && (forall|at: int|
            0 <= at < k ==> (#[trigger] neighbour_at(knn, node, at)).0 != other) ==> !dot(
            node,
            other,
        ).greater(dot(node, neighbour_at(knn, node, rank).0 as int))
}

/// Whether `e` says why `n` vectors get no table of `k` neighbours each: that it does
/// not fit, or which is the first that has too few, and how many.
pub open spec fn is_worded_refusal(
    vectors: Seq<u16>,
    n: int,
    dim: int,
    k: int,
    f: spec_fn(Seq<u16>, Seq<u16>) -> Single,
    e: Error,
) -> bool {
    let found = |node: int| possible_neighbours(vectors, n, dim, f, node).len();
    if n * k > usize::MAX {
        e.text() == "exact_knn_topk: n ("@ + decimal(n as nat) + ") * k ("@ + decimal(k as nat)
            + ") neighbour slots overflows usize"@
    } else {
        exists|node: int|
            #![trigger possible_neighbours(vectors, n, dim, f, node)]
            {
                &&& 0 <= node < n
                &&& found(node) < k
                &&& forall|before: int|
                    0 <= before < node ==> (#[trigger] possible_neighbours(
                        vectors,
                        n,
                        dim,
                        f,
                        before,
                    )).len() >= k
                &&& e.text() == "exact_knn_topk: node "@ + decimal(node as nat) + " found only "@
                    + decimal(found(node)) + " of "@ + decimal(k as nat)
                    + " neighbours; the partition's vectors must all be finite"@
            }
    }
}

/// A table that is exact by the scores is one of the nearest by the vectors.
proof fn lemma_exact_by_vectors(
    knn: &ExactKnn,
    vectors: Seq<u16>,
    n: int,
    dim: int,
    k: int,
    f: spec_fn(Seq<u16>, Seq<u16>) -> Single,
    scores: Scores,
)
    requires
        knn.num_nodes == n,
        knn.k == k,
        knn.wf(),
        k > 0 ==> knn.is_exact(scores),
        scores == scores_by(
            n,
            |a: int, b: int| f(vector_at(vectors, dim, a), vector_at(vectors, dim, b)),
        ),
    ensures
        is_nearest_table(knn, vectors, n, dim, k, f),
{
    let dot = |a: int, b: int| f(vector_at(vectors, dim, a), vector_at(vectors, dim, b));
    assert forall|node: int, rank: int| 0 <= node < n && 0 <= rank < k implies {
        &&& (#[trigger] neighbour_at(knn, node, rank)).0 == knn.ids_of(node)[rank]
        &&& neighbour_at(knn, node, rank).1 == knn.distances_of(node)[rank]
    } by {
        lemma_row_fits(node, n, k);
    }
    assert forall|node: int, rank: int|
        #![trigger neighbour_at(knn, node, rank)]
        0 <= node < n && 0 <= rank < k implies {
        let (id, distance) = neighbour_at(knn, node, rank);
        &&& id < n
        &&& id != node
        &&& is_score(dot(node, id as int))
        &&& dot(node, id as int).is_one_minus(distance)
    } by {
        lemma_row_fits(node, n, k);
        assert(is_exact_at(knn.ids@, knn.distances@, k, scores, node));
        let id = knn.ids_of(node)[rank] as int;
        assert(scores.contains_key((node, id)));
    }
    assert forall|node: int, rank: int, later: int|
        #![trigger neighbour_at(knn, node, rank), neighbour_at(knn, node, later)]
        0 <= node < n && 0 <= rank < later < k implies {
        let (id, other) = (
            neighbour_at(knn, node, rank).0 as int,
            neighbour_at(knn, node, later).0 as int,
        );
        &&& id != other
        &&& !dot(node, other).greater(dot(node, id))
        &&& dot(node, other) == dot(node, id) ==> id < other
    } by {
        lemma_row_fits(node, n, k);
        assert(is_exact_at(knn.ids@, knn.distances@, k, scores, node));
        let (id, other) = (knn.ids_of(node)[rank] as int, knn.ids_of(node)[later] as int);
        assert(scores.contains_key((node, id)) && scores.contains_key((node, other)));
    }
    assert forall|node: int, other: int, rank: int|
        #![trigger vector_at(vectors, dim, other), neighbour_at(knn, node, rank)]
        0 <= node < n && 0 <= other < n && other != node && 0 <= rank < k && (forall|at: int|
            0 <= at < k ==> (#[trigger] neighbour_at(knn, node, at)).0 != other) implies !dot(
        node,
        other,
    ).greater(dot(node, neighbour_at(knn, node, rank).0 as int)) by {
        lemma_row_fits(node, n, k);
        assert(is_exact_at(knn.ids@, knn.distances@, k, scores, node));
        let ids = knn.ids_of(node);
        assert forall|at: int| 0 <= at < ids.len() implies #[trigger] ids[at] != other by {
            assert(neighbour_at(knn, node, at).0 == ids[at]);
        }
        assert(scores.contains_key((node, ids[rank] as int)));
        assert(scores.contains_key((node, other)));
    }
}

/// The scores of a walk are those of the vectors.
proof fn lemma_walk_scores_vectors<P, Pack, Score>(
    pack: &Pack,
    score: &Score,
    vectors: Seq<u16>,
    n: int,
    dim: usize,
    f: spec_fn(Seq<u16>, Seq<u16>) -> Single,
) where
    Pack: Fn(&[u16], usize, usize) -> Option<(P, usize)>,
    Score: Fn(&P, &[u16], usize, usize, usize) -> Vec<Single>,

    requires
        vectors.len() == n * dim,
        n <= u32::MAX,
        kernel_scores_vectors(pack, score, f),
        is_commutative(f),
    ensures
        kernel_computes(
            pack,
            score,
            vectors,
            n,
            dim,
            |a: int, b: int|
                f(vector_at(vectors, dim as int, a), vector_at(vectors, dim as int, b)),
        ),
{
    let dot = |a: int, b: int|
        f(vector_at(vectors, dim as int, a), vector_at(vectors, dim as int, b));
    assert forall|i: int, j: int, s: Single|
        is_pair((i, j), n) && #[trigger] kernel_scored(
            pack,
            score,
            vectors,
            n,
            dim,
            i,
            j,
            s,
        ) implies s == dot(i, j) by {
        lemma_nodes_scored_by_vectors(pack, score, vectors, n, dim, f, i, j, s);
    }
}

/// [`lemma_table_is_exact_by_vectors`], by what the answer is.
pub proof fn lemma_answer_by_vectors<P, Pack, Score>(
    vectors: Seq<u16>,
    n: usize,
    dim: usize,
    k: usize,
    symmetric: bool,
    pack: &Pack,
    score: &Score,
    f: spec_fn(Seq<u16>, Seq<u16>) -> Single,
    r: Result<ExactKnn, Error>,
) where
    Pack: Fn(&[u16], usize, usize) -> Option<(P, usize)>,
    Score: Fn(&P, &[u16], usize, usize, usize) -> Vec<Single>,

    requires
        is_table_or_refusal(
            pack,
            score,
            vectors,
            n,
            dim,
            listed(k as int, n as int),
            symmetric,
            r,
        ),
        vectors.len() == n * dim,
        n <= u32::MAX,
        kernel_always_packs::<P, Pack>(pack),
        kernel_scores_vectors(pack, score, f),
        is_commutative(f),
    ensures
        ({
            let count = if k < n {
                k as int
            } else if n == 0 {
                0
            } else {
                n - 1
            };
            &&& r is Ok <==> count == 0 || (n * count <= usize::MAX && forall|node: int|
                0 <= node < n ==> (#[trigger] possible_neighbours(
                    vectors,
                    n as int,
                    dim as int,
                    f,
                    node,
                )).len() >= count)
            &&& r matches Ok(knn) ==> is_nearest_table(
                &knn,
                vectors,
                n as int,
                dim as int,
                count,
                f,
            )
            &&& r matches Err(e) ==> e is InvalidInput && is_worded_refusal(
                vectors,
                n as int,
                dim as int,
                count,
                f,
                e,
            )
        }),
{
    let count = listed(k as int, n as int);
    let dot = |a: int, b: int|
        f(vector_at(vectors, dim as int, a), vector_at(vectors, dim as int, b));
    let all = scores_by(n as int, dot);
    lemma_walk_scores_vectors(pack, score, vectors, n as int, dim, f);
    assert forall|node: int| 0 <= node < n implies (#[trigger] possible_neighbours(
        vectors,
        n as int,
        dim as int,
        f,
        node,
    )) == admissible(all, node) by {
        assert(possible_neighbours(vectors, n as int, dim as int, f, node) =~= admissible(
            all,
            node,
        ));
    }
    match r {
        Ok(knn) => {
            if count > 0 {
                let scores = choose|scores: Scores|
                    {
                        &&& #[trigger] is_score_table(
                            pack,
                            score,
                            vectors,
                            n as int,
                            dim,
                            symmetric,
                            scores,
                        )
                        &&& has_enough(scores, n as int, count)
                        &&& knn.is_exact(scores)
                        &&& lists_kept(&knn, symmetric, scores)
                    };
                lemma_walks_score_alike(
                    pack,
                    score,
                    vectors,
                    n as int,
                    dim,
                    dot,
                    symmetric,
                    scores,
                );
                assert forall|node: int| 0 <= node < n implies (#[trigger] possible_neighbours(
                    vectors,
                    n as int,
                    dim as int,
                    f,
                    node,
                )).len() >= count by {
                    assert(admissible(all, node).len() >= count);
                }
            }
            lemma_exact_by_vectors(&knn, vectors, n as int, dim as int, count, f, all);
        },
        Err(e) => {
            assert(forall|start: int| !#[trigger]
                declined_by::<P, Pack>(pack, vectors, n as int, dim, start));
            if n * count <= usize::MAX {
                let scores = choose|scores: Scores|
                    #[trigger] is_score_table(
                        pack,
                        score,
                        vectors,
                        n as int,
                        dim,
                        symmetric,
                        scores,
                    ) && is_short_error(scores, n as int, count, e);
                lemma_walks_score_alike(
                    pack,
                    score,
                    vectors,
                    n as int,
                    dim,
                    dot,
                    symmetric,
                    scores,
                );
                let node = choose|node: int|
                    #![trigger admissible(scores, node)]
                    {
                        &&& 0 <= node < n
                        &&& admissible(scores, node).len() < count
                        &&& forall|before: int|
                            0 <= before < node ==> (#[trigger] admissible(scores, before)).len()
                                >= count
                        &&& e.text() == too_few_neighbours(
                            node as nat,
                            admissible(scores, node).len(),
                            count as nat,
                        )
                    };
                assert(possible_neighbours(vectors, n as int, dim as int, f, node).len() < count);
                assert forall|before: int| 0 <= before < node implies (
                #[trigger] possible_neighbours(
                    vectors,
                    n as int,
                    dim as int,
                    f,
                    before,
                )).len() >= count by {
                    assert(admissible(scores, before).len() >= count);
                }
            }
        },
    }
}

/// The neighbour table of a partition is exact by the vectors themselves. Where the
/// kernel packs what it is handed and its score of two vectors is `f` of them, in
/// either order, each vector lists the nearest others by `f`, as many as are asked for
/// or there are. It fails exactly where some vector has too few that can be neighbours
/// at all, or the table does not fit.
pub proof fn lemma_table_is_exact_by_vectors<P, Pack, Score>(
    vectors: &[u16],
    n: usize,
    dim: usize,
    k: usize,
    pack: &Pack,
    score: &Score,
    f: spec_fn(Seq<u16>, Seq<u16>) -> Single,
    r: Result<ExactKnn, Error>,
) where
    Pack: Fn(&[u16], usize, usize) -> Option<(P, usize)>,
    Score: Fn(&P, &[u16], usize, usize, usize) -> Vec<Single>,

    requires
        call_ensures(
            exact_knn_topk::<P, Pack, Score>,
            (vectors, n, dim, k, DistanceType::Dot, pack, score),
            r,
        ),
        vectors@.len() == n * dim,
        n <= u32::MAX,
        kernel_always_packs::<P, Pack>(pack),
        kernel_scores_vectors(pack, score, f),
        is_commutative(f),
    ensures
        ({
            let count = if k < n {
                k as int
            } else if n == 0 {
                0
            } else {
                n - 1
            };
            &&& r is Ok <==> count == 0 || (n * count <= usize::MAX && forall|node: int|
                0 <= node < n ==> (#[trigger] possible_neighbours(
                    vectors@,
                    n as int,
                    dim as int,
                    f,
                    node,
                )).len() >= count)
            &&& r matches Ok(knn) ==> is_nearest_table(
                &knn,
                vectors@,
                n as int,
                dim as int,
                count,
                f,
            )
            &&& r matches Err(e) ==> e is InvalidInput && is_worded_refusal(
                vectors@,
                n as int,
                dim as int,
                count,
                f,
                e,
            )
        }),
{
    assert(vectors.len() == vectors@.len());
    lemma_answer_by_vectors(vectors@, n, dim, k, true, pack, score, f, r);
}

/// [`lemma_table_is_exact_by_vectors`], of either walk.
pub proof fn lemma_walk_is_exact_by_vectors<P, Pack, Score>(
    vectors: &[u16],
    n: usize,
    dim: usize,
    k: usize,
    symmetric: bool,
    pack: &Pack,
    score: &Score,
    f: spec_fn(Seq<u16>, Seq<u16>) -> Single,
    r: Result<ExactKnn, Error>,
) where
    Pack: Fn(&[u16], usize, usize) -> Option<(P, usize)>,
    Score: Fn(&P, &[u16], usize, usize, usize) -> Vec<Single>,

    requires
        call_ensures(
            exact_knn_topk_blocked::<P, Pack, Score>,
            (vectors, n, dim, k, DistanceType::Dot, symmetric, pack, score),
            r,
        ),
        vectors@.len() == n * dim,
        n <= u32::MAX,
        kernel_always_packs::<P, Pack>(pack),
        kernel_scores_vectors(pack, score, f),
        is_commutative(f),
    ensures
        ({
            let count = if k < n {
                k as int
            } else if n == 0 {
                0
            } else {
                n - 1
            };
            &&& r is Ok <==> count == 0 || (n * count <= usize::MAX && forall|node: int|
                0 <= node < n ==> (#[trigger] possible_neighbours(
                    vectors@,
                    n as int,
                    dim as int,
                    f,
                    node,
                )).len() >= count)
            &&& r matches Ok(knn) ==> is_nearest_table(
                &knn,
                vectors@,
                n as int,
                dim as int,
                count,
                f,
            )
            &&& r matches Err(e) ==> e is InvalidInput && is_worded_refusal(
                vectors@,
                n as int,
                dim as int,
                count,
                f,
                e,
            )
        }),
{
    assert(vectors.len() == vectors@.len());
    lemma_answer_by_vectors(vectors@, n, dim, k, symmetric, pack, score, f, r);
}

/// What is no partition of vectors under the dot product is refused, whatever the
/// kernel: another distance as not supported, and vectors of another length, or more
/// than there are ids for, as invalid. Of fewer than two vectors, or where none are
/// asked for, nothing is listed and the kernel is not asked. Otherwise not supported
/// means that the kernel declined, and where it declines everything, that it is what is
/// answered.
pub proof fn lemma_refuses_what_it_cannot_serve<P, Pack, Score>(
    vectors: &[u16],
    n: usize,
    dim: usize,
    k: usize,
    distance_type: DistanceType,
    pack: &Pack,
    score: &Score,
    r: Result<ExactKnn, Error>,
) where
    Pack: Fn(&[u16], usize, usize) -> Option<(P, usize)>,
    Score: Fn(&P, &[u16], usize, usize, usize) -> Vec<Single>,

    requires
        call_ensures(
            exact_knn_topk::<P, Pack, Score>,
            (vectors, n, dim, k, distance_type, pack, score),
            r,
        ),
    ensures
        !(distance_type is Dot) ==> (r matches Err(e) && e is NotSupported && e.text()
            == "exact_knn_topk: only DistanceType::Dot is implemented, got "@ + if distance_type
            is L2 {
            "l2"@
        } else if distance_type is Cosine {
            "cosine"@
        } else {
            "hamming"@
        }),
        distance_type is Dot && n * dim > usize::MAX ==> (r matches Err(e) && e is InvalidInput
            && e.text() == "exact_knn_topk: n ("@ + decimal(n as nat) + ") * dim ("@ + decimal(
            dim as nat,
        ) + ") overflows usize"@),
        distance_type is Dot && n * dim <= usize::MAX && vectors@.len() != n * dim ==> (
        r matches Err(e) && e is InvalidInput && e.text() == "exact_knn_topk: vectors holds "@
            + decimal(vectors@.len()) + " values, expected n ("@ + decimal(n as nat)
            + ") * dim ("@ + decimal(dim as nat) + ") = "@ + decimal((n * dim) as nat)),
        distance_type is Dot && n > u32::MAX ==> (r matches Err(e) && e is InvalidInput),
        distance_type is Dot && vectors@.len() == n * dim && n > u32::MAX ==> (r matches Err(e)
            && e.text() == "exact_knn_topk: n ("@ + decimal(n as nat)
            + ") exceeds u32::MAX, so neighbour ids would not fit"@),
        distance_type is Dot && vectors@.len() == n * dim && n <= u32::MAX ==> {
            &&& n <= 1 || k == 0 ==> (r matches Ok(knn) && knn.num_nodes == n && knn.k == 0
                && knn.ids@.len() == 0 && knn.distances@.len() == 0)
            &&& r is Err && r->Err_0 is NotSupported ==> r->Err_0.text()
                == "exact_knn_topk: the AMX-FP16 GEMM is unavailable for n = "@ + decimal(n as nat)
                + ", dim = "@ + decimal(dim as nat)
                + " (no kernel in this build, host without AMX-FP16, or LANCE_DISABLE_AMX set)"@
                && exists|c: &[u16], len: usize| #[trigger]
                call_ensures(*pack, (c, len, dim), None::<(P, usize)>)
            &&& n > 1 && k > 0 && (forall|c: &[u16], len: usize, p: P, stride: usize| !#[trigger]
                call_ensures(*pack, (c, len, dim), Some((p, stride)))) ==> (r matches Err(e)
                && e is NotSupported)
        },
{
    assert(vectors.len() == vectors@.len());
    if distance_type is Dot && vectors@.len() == n * dim && n <= u32::MAX {
        let count = listed(k as int, n as int);
        assert(is_table_or_refusal(pack, score, vectors@, n, dim, count, true, r));
        if count == 0 {
            assert(n * count == 0) by (nonlinear_arith)
                requires
                    count == 0,
            ;
        }
        if r is Err && r->Err_0 is NotSupported {
            let start = choose|start: int| #[trigger]
                declined_by::<P, Pack>(pack, vectors@, n as int, dim, start);
            let v = choose|v: &[u16]|
                v@ == column_operand(vectors@, n as int, dim as int, start)
                    && #[trigger] call_ensures(
                    *pack,
                    (v, cols_at(n as int, start) as usize, dim),
                    None::<(P, usize)>,
                );
            assert(call_ensures(
                *pack,
                (v, cols_at(n as int, start) as usize, dim),
                None::<(P, usize)>,
            ));
        }
        if n > 1 && k > 0 && (forall|c: &[u16], len: usize, p: P, stride: usize| !#[trigger]
            call_ensures(*pack, (c, len, dim), Some((p, stride)))) {
            assert(!is_packed::<P, Pack>(pack, vectors@, n as int, dim, 0));
        }
    }
}

/// When node `x` is offered another: the walk of the whole matrix brings them all
/// in one go. That of one triangle brings first those before the run of 1024 nodes that
/// holds `x`; then those after `x` in its run of 256; then those before `x` in its run of
/// 1024; and then the rest.
pub open spec fn arrives_in(symmetric: bool, x: int, other: int) -> int {
    let row_run = x - x % 1024;
    let column_run = x - x % 256;
    if !symmetric {
        0
    } else if other < row_run {
        1
    } else if x < other < column_run + 256 {
        2
    } else if other < x {
        3
    } else {
        4
    }
}

/// What a node is offered comes by [`arrives_in`], and by id within that.
pub proof fn lemma_offers_arrive_in_turn(n: int, symmetric: bool, x: int, p: int, q: int)
    requires
        0 <= x < n,
        0 <= p < q < arrival_order(n, symmetric, x).len(),
    ensures
        ({
            let (a, b) = (arrival_order(n, symmetric, x)[p], arrival_order(n, symmetric, x)[q]);
            let (early, late) = (arrives_in(symmetric, x, a), arrives_in(symmetric, x, b));
            early < late || (early == late && a < b)
        }),
{
    let start = row_start_of(x);
    let end = col_end_of(n, x);
    assert(0 <= start <= x < end <= n);
}

/// Which of two nodes is the row where the kernel scores them: the one that lists the
/// other, but where one triangle is walked always the one with the smaller id. So a
/// neighbour is at one less `f` of the row's vector and the column's, even where `f` is
/// not the same in either order.
pub proof fn lemma_lists_the_rows_scores<P, Pack, Score>(
    vectors: &[u16],
    n: usize,
    dim: usize,
    k: usize,
    symmetric: bool,
    pack: &Pack,
    score: &Score,
    f: spec_fn(Seq<u16>, Seq<u16>) -> Single,
    knn: ExactKnn,
    node: int,
    rank: int,
) where
    Pack: Fn(&[u16], usize, usize) -> Option<(P, usize)>,
    Score: Fn(&P, &[u16], usize, usize, usize) -> Vec<Single>,

    requires
        call_ensures(
            exact_knn_topk_blocked::<P, Pack, Score>,
            (vectors, n, dim, k, DistanceType::Dot, symmetric, pack, score),
            Ok(knn),
        ),
        kernel_scores_vectors(pack, score, f),
        0 <= node < n,
        0 <= rank < knn.k,
    ensures
        ({
            let (id, distance) = neighbour_at(&knn, node, rank);
            let (row, column) = if symmetric && id < node {
                (id as int, node)
            } else {
                (node, id as int)
            };
            f(
                vector_at(vectors@, dim as int, row),
                vector_at(vectors@, dim as int, column),
            ).is_one_minus(distance)
        }),
{
    assert(vectors.len() == vectors@.len());
    let scores = choose|scores: Scores|
        #[trigger] is_score_table(pack, score, vectors@, n as int, dim, symmetric, scores)
            && knn.is_exact(scores);
    lemma_row_fits(node, n as int, knn.k as int);
    assert(is_exact_at(knn.ids@, knn.distances@, knn.k as int, scores, node));
    let (id, distance) = neighbour_at(&knn, node, rank);
    assert(id == knn.ids_of(node)[rank] && distance == knn.distances_of(node)[rank]);
    assert(scores.contains_key((node, id as int)));
    let (row, column) = if symmetric && id < node {
        (id as int, node)
    } else {
        (node, id as int)
    };
    lemma_nodes_scored_by_vectors(
        pack,
        score,
        vectors@,
        n as int,
        dim,
        f,
        row,
        column,
        scores[(node, id as int)],
    );
}

/// The kernel is handed at most 1024 rows, brought to whole tiles of 32, against at most
/// 256 columns, and the values of all of them.
pub proof fn lemma_kernel_gets_whole_tiles(vectors: Seq<u16>, n: int, dim: int, start: int)
    requires
        vectors.len() == n * dim,
        0 <= dim,
        0 <= start < n,
    ensures
        rows_at(n, start) == if n - start < 1024 {
            n - start
        } else {
            1024
        },
        cols_at(n, start) == if n - start < 256 {
            n - start
        } else {
            256
        },
        tiled(rows_at(n, start)) % 32 == 0,
        rows_at(n, start) <= tiled(rows_at(n, start)) < rows_at(n, start) + 32,
        row_operand(vectors, n, dim, start).len() >= tiled(rows_at(n, start)) * dim,
        column_operand(vectors, n, dim, start).len() == cols_at(n, start) * dim,
{
    let (rows, cols) = (rows_at(n, start), cols_at(n, start));
    lemma_scaled(start, n, dim);
    lemma_scaled(start, start + rows, dim);
    lemma_scaled(start + rows, n, dim);
    lemma_scaled(start, start + cols, dim);
    lemma_scaled(start + cols, n, dim);
    lemma_scaled(rows, tiled(rows), dim);
    if start + tiled(rows) <= n {
        lemma_scaled(tiled(rows), n - start, dim);
    }
}

} // verus!
