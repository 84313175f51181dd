//! The exact neighbour table of a partition.
use crate::single::{lemma_one_minus_reverses, Single, NEG_INFINITY};
use crate::top_k::Scores;
use vstd::prelude::*;

verus! {

/// Exact nearest neighbours for every node of a partition.
///
/// `ids` and `distances` are both `num_nodes * k` long, laid out node-major:
/// node `i` owns `[i * k, (i + 1) * k)` in each. Within a node the neighbours
/// are sorted nearest-first (ascending distance), and no node lists itself.
#[derive(Clone, Debug, PartialEq, Eq)]
pub struct ExactKnn {
    /// Nodes covered.
    pub num_nodes: usize,
    /// Neighbours stored per node. This is `min(k, n - 1)`, not the requested
    /// `k`: a node has only `n - 1` other nodes to choose from, so a partition
    /// smaller than `k + 1` yields shorter lists (and `0` for `n <= 1`).
    pub k: usize,
    pub ids: Vec<u32>,
    pub distances: Vec<Single>,
}

/// Whether a neighbour at dot product `a` and node `i` ranks before one at `b`
/// and node `j`: the larger dot product first, the smaller node on a tie.
pub open spec fn ranks_before(a: Single, i: int, b: Single, j: int) -> bool {
    a.total_rank() > b.total_rank() || (a.total_rank() == b.total_rank() && i < j)
}

/// Whether a dot product can be that of a neighbour: it is no NaN and beats
/// negative infinity.
pub open spec fn is_admissible(dot: Single) -> bool {
    dot.greater(Single { bits: NEG_INFINITY })
}

/// Whether `ids`, at `distances`, are exact nearest neighbours of `node` by the
/// dot products in `scores`: each is scored and at the distance its score gives,
/// they stand nearest-first, and nothing left out beats one of them.
pub open spec fn is_exact_row(
    ids: Seq<u32>,
    distances: Seq<Single>,
    scores: Scores,
    node: int,
) -> bool {
    &&& ids.len() == distances.len()
    &&& forall|r: int|
        0 <= r < ids.len() ==> {
            let key = (node, (#[trigger] ids[r]) as int);
            &&& scores.contains_key(key)
            &&& is_admissible(scores[key])
            &&& scores[key].is_one_minus(distances[r])
        }
    &&& forall|r: int, s: int|
        0 <= r < s < ids.len() ==> ranks_before(
            scores[(node, (#[trigger] ids[r]) as int)],
            ids[r] as int,
            scores[(node, (#[trigger] ids[s]) as int)],
            ids[s] as int,
        )
    &&& forall|id: int, r: int|
        0 <= r < ids.len() && (#[trigger] scores.contains_key((node, id))) && (forall|s: int|
            0 <= s < ids.len() ==> #[trigger] ids[s] != id) ==> !scores[(node, id)].greater(
            scores[(node, (#[trigger] ids[r]) as int)],
        )
}

/// [`is_exact_row`], of the row that starts at `node * k`.
pub open spec fn is_exact_at(
    ids: Seq<u32>,
    distances: Seq<Single>,
    k: int,
    scores: Scores,
    node: int,
) -> bool {
    is_exact_row(
        ids.subrange(node * k, node * k + k),
        distances.subrange(node * k, node * k + k),
        scores,
        node,
    )
}

impl ExactKnn {
    /// Both lists hold `k` entries for each node.
    pub open spec fn wf(&self) -> bool {
        &&& self.ids@.len() == self.num_nodes * self.k
        &&& self.distances@.len() == self.num_nodes * self.k
    }

    pub open spec fn ids_of(&self, node: int) -> Seq<u32> {
        self.ids@.subrange(node * self.k, node * self.k + self.k)
    }

    pub open spec fn distances_of(&self, node: int) -> Seq<Single> {
        self.distances@.subrange(node * self.k, node * self.k + self.k)
    }

    /// Whether every node lists exact nearest neighbours by the dot products in
    /// `scores`.
    pub open spec fn is_exact(&self, scores: Scores) -> bool {
        &&& self.wf()
        &&& forall|node: int|
            0 <= node < self.num_nodes ==> #[trigger] is_exact_at(
                self.ids@,
                self.distances@,
                self.k as int,
                scores,
                node,
            )
    }

    /// Node `node`'s neighbour ids and their distances (`1.0 - dot`),
    /// nearest-first. Both slices are `k` long.
    pub fn neighbours(&self, node: usize) -> (r: (&[u32], &[Single]))
        requires
            self.wf(),
            node < self.num_nodes,
        ensures
            r.0@ == self.ids_of(node as int),
            r.1@ == self.distances_of(node as int),
            r.0@.len() == self.k,
            r.1@.len() == self.k,
    {
        proof {
            lemma_row_fits(node as int, self.num_nodes as int, self.k as int);
            assert(self.ids.len() == self.ids@.len());
        }
        let start: usize = node * self.k;
        let end: usize = start + self.k;
        (&self.ids.as_slice()[start..end], &self.distances.as_slice()[start..end])
    }
}

pub proof fn lemma_row_fits(node: int, n: int, k: int)
    by (nonlinear_arith)
    requires
        0 <= node < n,
        0 <= k,
    ensures
        0 <= node * k,
        node * k + k <= n * k,
        (node + 1) * k == node * k + k,
{
}

/// An exact row lists no node twice.
pub proof fn lemma_row_has_no_duplicates(
    ids: Seq<u32>,
    distances: Seq<Single>,
    scores: Scores,
    node: int,
)
    requires
        is_exact_row(ids, distances, scores, node),
    ensures
        ids.no_duplicates(),
{
    assert forall|r: int, s: int| 0 <= r < ids.len() && 0 <= s < ids.len() && r != s implies ids[r]
        != ids[s] by {
        if r < s {
            assert(ranks_before(
                scores[(node, ids[r] as int)],
                ids[r] as int,
                scores[(node, ids[s] as int)],
                ids[s] as int,
            ));
        } else {
            assert(ranks_before(
                scores[(node, ids[s] as int)],
                ids[s] as int,
                scores[(node, ids[r] as int)],
                ids[r] as int,
            ));
        }
    }
}

/// The distances of an exact row ascend.
pub proof fn lemma_row_ascends(
    ids: Seq<u32>,
    distances: Seq<Single>,
    scores: Scores,
    node: int,
)
    requires
        is_exact_row(ids, distances, scores, node),
    ensures
        forall|r: int, s: int|
            0 <= r < s < distances.len() ==> (#[trigger] distances[r]).total_rank() <= (
            #[trigger] distances[s]).total_rank(),
{
    assert forall|r: int, s: int| 0 <= r < s < distances.len() implies (
    #[trigger] distances[r]).total_rank() <= (#[trigger] distances[s]).total_rank() by {
        let a = scores[(node, ids[r] as int)];
        let b = scores[(node, ids[s] as int)];
        assert(ranks_before(a, ids[r] as int, b, ids[s] as int));
        lemma_one_minus_reverses(a, b, distances[r], distances[s]);
    }
}

/// The first neighbour of an exact row is the nearest of all: no other node with a
/// score that can be a neighbour's is at a lesser distance.
pub proof fn lemma_first_is_nearest(
    ids: Seq<u32>,
    distances: Seq<Single>,
    scores: Scores,
    node: int,
    other: int,
    distance: Single,
)
    requires
        is_exact_row(ids, distances, scores, node),
        ids.len() > 0,
        scores.contains_key((node, other)),
        is_admissible(scores[(node, other)]),
        scores[(node, other)].is_one_minus(distance),
    ensures
        distances[0].total_rank() <= distance.total_rank(),
{
    let first = scores[(node, ids[0] as int)];
    let dot = scores[(node, other)];
    assert(first.rank() >= dot.rank()) by {
        if exists|s: int| 0 <= s < ids.len() && #[trigger] ids[s] == other {
            let s = choose|s: int| 0 <= s < ids.len() && #[trigger] ids[s] == other;
            if s > 0 {
                assert(ranks_before(
                    scores[(node, ids[0] as int)],
                    ids[0] as int,
                    scores[(node, ids[s] as int)],
                    ids[s] as int,
                ));
            }
        } else {
            assert(!scores[(node, other)].greater(scores[(node, ids[0] as int)]));
        }
    }
    assert(scores.contains_key((node, ids[0] as int)));
    lemma_one_minus_reverses(first, dot, distances[0], distance);
}

/// Two exact rows of one node by the same scores: at no place has the first a
/// nearer neighbour than the second.
proof fn lemma_no_nearer(
    ids: Seq<u32>,
    distances: Seq<Single>,
    other_ids: Seq<u32>,
    other_distances: Seq<Single>,
    scores: Scores,
    node: int,
    r: int,
)
    requires
        is_exact_row(ids, distances, scores, node),
        is_exact_row(other_ids, other_distances, scores, node),
        0 <= r < ids.len(),
        r < other_ids.len(),
    ensures
        scores[(node, ids[r] as int)].rank() <= scores[(node, other_ids[r] as int)].rank(),
{
    if scores[(node, ids[r] as int)].rank() > scores[(node, other_ids[r] as int)].rank() {
        let nearer = ids.subrange(0, r + 1);
        let before = other_ids.subrange(0, r);
        lemma_row_has_no_duplicates(ids, distances, scores, node);
        assert forall|id: u32| #[trigger] nearer.to_set().contains(id) implies before.to_set().contains(
            id,
        ) by {
            let q = choose|q: int| 0 <= q < nearer.len() && nearer[q] == id;
            assert(id == ids[q]);
            assert(scores.contains_key((node, id as int)));
            if q < r {
                assert(ranks_before(
                    scores[(node, ids[q] as int)],
                    ids[q] as int,
                    scores[(node, ids[r] as int)],
                    ids[r] as int,
                ));
            }
            let dot = scores[(node, id as int)];
            let bar = scores[(node, other_ids[r] as int)];
            assert(dot.greater(bar));
            assert(exists|s: int| 0 <= s < other_ids.len() && #[trigger] other_ids[s] == id);
            let s = choose|s: int| 0 <= s < other_ids.len() && #[trigger] other_ids[s] == id;
            if s > r {
                assert(ranks_before(
                    scores[(node, other_ids[r] as int)],
                    other_ids[r] as int,
                    scores[(node, other_ids[s] as int)],
                    other_ids[s] as int,
                ));
            }
            assert(before[s] == id);
        }
        assert(nearer.no_duplicates());
        nearer.unique_seq_to_set();
        before.lemma_cardinality_of_set();
        vstd::seq_lib::seq_to_set_is_finite(before);
        vstd::set_lib::lemma_len_subset(nearer.to_set(), before.to_set());
    }
}

/// The nodes that can be neighbours of `node` and rank no lower than `bar`.
pub open spec fn at_least(scores: Scores, node: int, bar: int) -> Set<int> {
    Set::new(
        |id: int|
            {
                &&& scores.contains_key((node, id))
                &&& is_admissible(scores[(node, id)])
                &&& scores[(node, id)].rank() >= bar
            },
    )
}

/// Whether some bar leaves exactly `k` of a node's scores above it, so that no two
/// equal ones stand on either side of the cut.
pub open spec fn has_clear_cut(scores: Scores, node: int, k: int) -> bool {
    exists|bar: int| #[trigger]
        at_least(scores, node, bar).finite() && at_least(scores, node, bar).len() == k
}

/// An exact row lists what a clear cut leaves.
proof fn lemma_cut_is_listed(
    ids: Seq<u32>,
    distances: Seq<Single>,
    scores: Scores,
    node: int,
    bar: int,
)
    requires
        is_exact_row(ids, distances, scores, node),
        at_least(scores, node, bar).finite(),
        at_least(scores, node, bar).len() == ids.len(),
    ensures
        forall|id: u32| #[trigger]
            ids.contains(id) <==> at_least(scores, node, bar).contains(id as int),
{
    let above = at_least(scores, node, bar);
    let named = Seq::new(ids.len(), |r: int| ids[r] as int);
    lemma_row_has_no_duplicates(ids, distances, scores, node);
    assert(named.no_duplicates());
    named.unique_seq_to_set();
    vstd::seq_lib::seq_to_set_is_finite(named);
    assert forall|id: int| #[trigger] named.to_set().contains(id) implies above.contains(id) by {
        let r = choose|r: int| 0 <= r < named.len() && named[r] == id;
        assert(ids[r] as int == id);
        assert(scores.contains_key((node, id)));
        if scores[(node, id)].rank() < bar {
            let rest = named.to_set().remove(id);
            assert forall|other: int| #[trigger] above.contains(other) implies rest.contains(
                other,
            ) by {
                if forall|s: int| 0 <= s < ids.len() ==> #[trigger] ids[s] != other {
                    assert(!scores[(node, other)].greater(scores[(node, ids[r] as int)]));
                } else {
                    let s = choose|s: int| 0 <= s < ids.len() && #[trigger] ids[s] == other;
                    assert(named[s] == other);
                }
            }
            vstd::set_lib::lemma_len_subset(above, rest);
        }
    }
    vstd::set_lib::lemma_subset_equality(named.to_set(), above);
    assert forall|id: u32| #[trigger] ids.contains(id) <==> above.contains(id as int) by {
        if ids.contains(id) {
            let r = choose|r: int| 0 <= r < ids.len() && ids[r] == id;
            assert(named[r] == id as int);
        }
        if above.contains(id as int) {
            assert(named.contains(id as int));
            let r = choose|r: int| 0 <= r < named.len() && named[r] == id as int;
            assert(ids[r] == id);
        }
    }
}

/// Whether `a` stands no later than `b` among the neighbours of `node`.
spec fn stands_by(scores: Scores, node: int, a: u32, b: u32) -> bool {
    a == b || ranks_before(scores[(node, a as int)], a as int, scores[(node, b as int)], b as int)
}

/// Exact rows that list the same nodes list them in the same order.
pub proof fn lemma_one_row(
    ids: Seq<u32>,
    distances: Seq<Single>,
    other_ids: Seq<u32>,
    other_distances: Seq<Single>,
    scores: Scores,
    node: int,
)
    requires
        is_exact_row(ids, distances, scores, node),
        is_exact_row(other_ids, other_distances, scores, node),
        forall|id: u32| #[trigger] ids.contains(id) <==> other_ids.contains(id),
    ensures
        ids == other_ids,
{
    let leq = |a: u32, b: u32| stands_by(scores, node, a, b);
    lemma_row_has_no_duplicates(ids, distances, scores, node);
    lemma_row_has_no_duplicates(other_ids, other_distances, scores, node);
    ids.lemma_multiset_has_no_duplicates();
    other_ids.lemma_multiset_has_no_duplicates();
    assert forall|id: u32| #[trigger] ids.to_multiset().count(id) == other_ids.to_multiset().count(
        id,
    ) by {
        vstd::seq_lib::to_multiset_contains(ids, id);
        vstd::seq_lib::to_multiset_contains(other_ids, id);
        assert(ids.contains(id) <==> other_ids.contains(id));
    }
    assert(ids.to_multiset() =~= other_ids.to_multiset());
    vstd::seq_lib::lemma_sorted_unique(ids, other_ids, leq);
}

/// Exact rows of one length by the same scores hold the same distances, and, where
/// the cut is clear, the same neighbours.
pub proof fn lemma_exact_rows_agree(
    ids: Seq<u32>,
    distances: Seq<Single>,
    other_ids: Seq<u32>,
    other_distances: Seq<Single>,
    scores: Scores,
    node: int,
)
    requires
        is_exact_row(ids, distances, scores, node),
        is_exact_row(other_ids, other_distances, scores, node),
        ids.len() == other_ids.len(),
    ensures
        distances == other_distances,
        has_clear_cut(scores, node, ids.len() as int) ==> ids == other_ids,
{
    assert forall|r: int| 0 <= r < distances.len() implies #[trigger] distances[r]
        == other_distances[r] by {
        lemma_no_nearer(ids, distances, other_ids, other_distances, scores, node, r);
        lemma_no_nearer(other_ids, other_distances, ids, distances, scores, node, r);
        assert(scores.contains_key((node, ids[r] as int)));
        assert(scores.contains_key((node, other_ids[r] as int)));
        lemma_one_minus_reverses(
            scores[(node, ids[r] as int)],
            scores[(node, other_ids[r] as int)],
            distances[r],
            other_distances[r],
        );
    }
    assert(distances =~= other_distances);
    if has_clear_cut(scores, node, ids.len() as int) {
        let bar = choose|bar: int| #[trigger]
            at_least(scores, node, bar).finite() && at_least(scores, node, bar).len()
                == ids.len() as int;
        lemma_cut_is_listed(ids, distances, scores, node, bar);
        lemma_cut_is_listed(other_ids, other_distances, scores, node, bar);
        lemma_one_row(ids, distances, other_ids, other_distances, scores, node);
    }
}

impl ExactKnn {
    /// Two exact tables of one shape by the same scores hold the same distances,
    /// and the same neighbours of every node whose cut is clear.
    pub proof fn lemma_exact_tables_agree(&self, other: &ExactKnn, scores: Scores)
        requires
            self.is_exact(scores),
            other.is_exact(scores),
            self.num_nodes == other.num_nodes,
            self.k == other.k,
        ensures
            self.distances@ == other.distances@,
            forall|node: int|
                0 <= node < self.num_nodes && #[trigger] has_clear_cut(
                    scores,
                    node,
                    self.k as int,
                ) ==> self.ids_of(node) == other.ids_of(node),
    {
        let k = self.k as int;
        assert forall|node: int|
            #![trigger has_clear_cut(scores, node, k)]
            #![trigger self.distances_of(node)]
            0 <= node < self.num_nodes implies self.distances_of(node) == other.distances_of(node)
            && (has_clear_cut(scores, node, k) ==> self.ids_of(node) == other.ids_of(node)) by {
            assert(is_exact_at(self.ids@, self.distances@, k, scores, node));
            assert(is_exact_at(other.ids@, other.distances@, k, scores, node));
            lemma_row_fits(node, self.num_nodes as int, k);
            lemma_exact_rows_agree(
                self.ids_of(node),
                self.distances_of(node),
                other.ids_of(node),
                other.distances_of(node),
                scores,
                node,
            );
        }
        assert forall|p: int| 0 <= p < self.distances@.len() implies #[trigger] self.distances@[p]
            == other.distances@[p] by {
            let node = lemma_slot_owner(p, self.num_nodes as int, k);
            lemma_row_fits(node, self.num_nodes as int, k);
            assert(self.distances_of(node)[p - node * k] == self.distances@[p]);
            assert(other.distances_of(node)[p - node * k] == other.distances@[p]);
        }
        assert(self.distances@ =~= other.distances@);
    }
}

/// The node whose row holds slot `p`.
pub proof fn lemma_slot_owner(p: int, n: int, k: int) -> (node: int)
    requires
        0 <= p < n * k,
        0 <= k,
    ensures
        0 <= node < n,
        node * k <= p < node * k + k,
{
    if k == 0 {
        assert(n * k == 0) by (nonlinear_arith)
            requires
                k == 0,
        ;
    }
    let node = p / k;
    assert(0 <= node < n && node * k <= p < node * k + k) by (nonlinear_arith)
        requires
            0 <= p < n * k,
            0 < k,
            node == p / k,
    ;
    node
}

/// What is read of a node are its `k` entries of the two lists, those that start at
/// `node * k`, in their order.
pub proof fn lemma_reads_its_own_row(knn: &ExactKnn, node: usize, r: (&[u32], &[Single]))
    requires
        call_ensures(ExactKnn::neighbours, (knn, node), r),
        knn.ids@.len() == knn.num_nodes * knn.k,
        knn.distances@.len() == knn.num_nodes * knn.k,
        node < knn.num_nodes,
    ensures
        r.0@.len() == knn.k,
        r.1@.len() == knn.k,
        forall|c: int| 0 <= c < knn.k ==> #[trigger] r.0@[c] == knn.ids@[node * knn.k + c],
        forall|c: int| 0 <= c < knn.k ==> #[trigger] r.1@[c] == knn.distances@[node * knn.k + c],
{
    lemma_row_fits(node as int, knn.num_nodes as int, knn.k as int);
}

} // verus!
