//! What holds of every graph that is built from exact neighbour tables.
use crate::distance::DistanceType;
use crate::error::Error;
use crate::exact_build::{
    candidates_of, degree_cap, is_build_error, is_built, is_closed, is_connected,
    is_construction, is_edge, is_eligible, is_first_stray, is_graph, is_kept, is_level,
    is_level_error, is_level_filled, is_level_graph, is_level_served, is_level_table,
    is_merged_row, is_node_of, is_pool, is_reverse, is_selection, is_stray_error, is_table_of,
    leads_inside, lemma_edge_inside, lemma_members_of, lemma_pool_entries, lemma_pool_entry,
    level_vectors, members_of, pool_holds, ranked_of, selects, stray_neighbour, Partition,
};
use crate::exact_knn::{
    is_partition, is_score_table, kernel_decides, kernel_is_function, lemma_lists_others,
    lemma_one_answer, lemma_one_table, listed,
};
use crate::graph::{
    ids_of, in_order, lemma_node_key, node_key, GraphBuilderNode, Hnsw, HnswBuildParams,
    OrderedNode,
};
use crate::knn::{
    is_admissible, is_exact_at, lemma_first_is_nearest, lemma_row_ascends, lemma_row_fits, ExactKnn,
};
use crate::single::Single;
use crate::top_k::Scores;
use vstd::prelude::*;

verus! {

/// Whether no two neighbours in a list are the same node.
pub open spec fn has_distinct_ids(nodes: Seq<OrderedNode>) -> bool {
    forall|p: int, q: int|
        0 <= p < q < nodes.len() ==> (#[trigger] nodes[p]).id != (#[trigger] nodes[q]).id
}

/// Whether the selection keeps some of its candidates, none twice and at most as
/// many as asked for.
pub open spec fn selection_is_sound<Sel>(select: &Sel) -> bool where
    Sel: Fn(Vec<OrderedNode>, usize) -> Vec<OrderedNode>,
 {
    forall|c: Vec<OrderedNode>, m: usize, o: Vec<OrderedNode>| #[trigger]
        call_ensures(*select, (c, m), o) ==> {
            &&& o@.len() <= m
            &&& forall|p: int| 0 <= p < o@.len() ==> c@.contains(#[trigger] o@[p])
            &&& has_distinct_ids(c@) ==> has_distinct_ids(o@)
        }
}

/// Whether no edge leads from a node to itself.
pub open spec fn has_no_loops(members: Seq<u32>, adjacency: Seq<Vec<OrderedNode>>) -> bool {
    forall|i: int, x: OrderedNode|
        0 <= i < adjacency.len() && #[trigger] adjacency[i]@.contains(x) ==> x.id != members[i]
}

/// What a node's list of neighbours keeps on a level: at most `m_max` distinct
/// nodes of the level, other than the node itself.
pub open spec fn is_neighbour_list(
    row: Seq<OrderedNode>,
    members: Seq<u32>,
    node: u32,
    m_max: int,
) -> bool {
    &&& row.len() <= m_max
    &&& has_distinct_ids(row)
    &&& forall|p: int|
        0 <= p < row.len() ==> (#[trigger] row[p]).id != node && members.contains(row[p].id)
}

/// Two orders of the same neighbours hold the same ones.
proof fn lemma_same_nodes(a: Seq<OrderedNode>, b: Seq<OrderedNode>)
    requires
        a.to_multiset() == b.to_multiset(),
    ensures
        a.len() == b.len(),
        forall|x: OrderedNode|
            #![trigger a.contains(x)]
            #![trigger b.contains(x)]
            a.contains(x) <==> b.contains(x),
        has_distinct_ids(a) ==> has_distinct_ids(b),
{
    a.to_multiset_ensures();
    b.to_multiset_ensures();
    assert forall|x: OrderedNode| #[trigger] a.contains(x) <==> b.contains(x) by {
        vstd::seq_lib::to_multiset_contains(a, x);
        vstd::seq_lib::to_multiset_contains(b, x);
    }
    if has_distinct_ids(a) {
        assert(a.no_duplicates());
        a.lemma_multiset_has_no_duplicates();
        b.lemma_multiset_has_no_duplicates_conv();
        assert forall|p: int, q: int| 0 <= p < q < b.len() implies (#[trigger] b[p]).id != (
        #[trigger] b[q]).id by {
            assert(b.contains(b[p]) && b.contains(b[q]));
            assert(a.contains(b[p]) && a.contains(b[q]));
            let x = choose|x: int| 0 <= x < a.len() && a[x] == b[p];
            let y = choose|y: int| 0 <= y < a.len() && a[y] == b[q];
            assert(b[p] != b[q]);
        }
    }
}

/// What a sound selection keeps of `candidates`.
pub proof fn lemma_selected<Sel>(
    select: &Sel,
    candidates: Seq<OrderedNode>,
    m: usize,
    kept: Seq<OrderedNode>,
) where Sel: Fn(Vec<OrderedNode>, usize) -> Vec<OrderedNode>
    requires
        selection_is_sound(select),
        selects(select, candidates, m, kept),
    ensures
        kept.len() <= m,
        forall|x: OrderedNode| #[trigger] kept.contains(x) ==> candidates.contains(x),
        has_distinct_ids(candidates) ==> has_distinct_ids(kept),
{
    let (c, o) = choose|c: Vec<OrderedNode>, o: Vec<OrderedNode>|
        c@ == candidates && o@ == kept && #[trigger] call_ensures(*select, (c, m), o);
    assert(call_ensures(*select, (c, m), o));
    assert forall|x: OrderedNode| #[trigger] kept.contains(x) implies candidates.contains(x) by {
        let p = choose|p: int| 0 <= p < kept.len() && kept[p] == x;
        assert(c@.contains(o@[p]));
    }
}

/// What a row keeps of a pool, whether or not it had to be pruned.
pub proof fn lemma_kept<Sel>(
    select: &Sel,
    pool: Seq<OrderedNode>,
    m_max: usize,
    row: Seq<OrderedNode>,
) where Sel: Fn(Vec<OrderedNode>, usize) -> Vec<OrderedNode>
    requires
        selection_is_sound(select),
        is_kept(select, pool, m_max, row),
    ensures
        row.len() <= m_max,
        forall|x: OrderedNode| #[trigger] row.contains(x) ==> pool.contains(x),
        has_distinct_ids(pool) ==> has_distinct_ids(row),
{
    if pool.len() > m_max {
        let kept = choose|kept: Seq<OrderedNode>|
            #[trigger] selects(select, pool, m_max, kept) && row.to_multiset()
                == kept.to_multiset();
        lemma_selected(select, pool, m_max, kept);
        lemma_same_nodes(kept, row);
    } else {
        lemma_same_nodes(pool, row);
    }
}

/// Merging keeps a level's edges sound: where every edge stays on the level and
/// none is a loop, each node ends up with at most `m_max` distinct neighbours, on
/// the level and other than itself.
pub proof fn lemma_merged_row_is_sound<Sel>(
    select: &Sel,
    len: int,
    members: Seq<u32>,
    adjacency: Seq<Vec<OrderedNode>>,
    m_max: usize,
    i: int,
    row: Seq<OrderedNode>,
) where Sel: Fn(Vec<OrderedNode>, usize) -> Vec<OrderedNode>
    requires
        selection_is_sound(select),
        is_level(members, len),
        adjacency.len() == members.len(),
        is_closed(members, adjacency),
        has_no_loops(members, adjacency),
        0 <= i < members.len(),
        is_merged_row(select, members, adjacency, m_max, i, row),
    ensures
        is_neighbour_list(row, members, members[i], m_max as int),
{
    let pool = choose|pool: Seq<OrderedNode>|
        #[trigger] is_pool(members, adjacency, i, pool) && is_kept(select, pool, m_max, row);
    lemma_kept(select, pool, m_max, row);
    lemma_pool_entries(members, adjacency, i, pool);
    assert forall|p: int| 0 <= p < row.len() implies (#[trigger] row[p]).id != members[i]
        && members.contains(row[p].id) by {
        assert(row.contains(row[p]));
        let q = choose|q: int| 0 <= q < pool.len() && pool[q] == row[p];
        let x = pool[q];
        assert(is_edge(members, adjacency, i, x));
        lemma_edge_inside(members, adjacency, i, x);
        if !adjacency[i]@.contains(x) {
            let (j, e) = choose|j: int, e: int|
                {
                    &&& 0 <= j < adjacency.len()
                    &&& 0 <= e < adjacency[j]@.len()
                    &&& j < adjacency.len() || (j == adjacency.len() && e < 0)
                    &&& (#[trigger] adjacency[j]@[e]).id == members[i]
                    &&& x == (OrderedNode { id: members[j], dist: adjacency[j]@[e].dist })
                };
            assert(adjacency[j]@.contains(adjacency[j]@[e]));
        }
    }
}

/// Before pruning, a level's edges are mutual: with each edge, the node it leads
/// to has one back, at the same distance.
pub proof fn lemma_edges_are_mutual(
    members: Seq<u32>,
    adjacency: Seq<Vec<OrderedNode>>,
    i: int,
    j: int,
    dist: Single,
)
    requires
        members.no_duplicates(),
        adjacency.len() == members.len(),
        0 <= i < members.len(),
        0 <= j < members.len(),
        is_edge(members, adjacency, i, (OrderedNode { id: members[j], dist })),
    ensures
        is_edge(members, adjacency, j, (OrderedNode { id: members[i], dist })),
{
    let x = OrderedNode { id: members[j], dist };
    let y = OrderedNode { id: members[i], dist };
    if adjacency[i]@.contains(x) {
        let e = choose|e: int| 0 <= e < adjacency[i]@.len() && adjacency[i]@[e] == x;
        assert(adjacency[i]@[e].id == members[j]);
        assert(is_reverse(members, adjacency, j, y, adjacency.len() as int, 0));
    } else {
        let (k, e) = choose|k: int, e: int|
            {
                &&& 0 <= k < adjacency.len()
                &&& 0 <= e < adjacency[k]@.len()
                &&& k < adjacency.len() || (k == adjacency.len() && e < 0)
                &&& (#[trigger] adjacency[k]@[e]).id == members[i]
                &&& x == (OrderedNode { id: members[k], dist: adjacency[k]@[e].dist })
            };
        assert(k == j);
        assert(adjacency[j]@[e] == y);
        assert(adjacency[j]@.contains(y));
    }
}

/// The unions that nodes prune their neighbours from are mutual: where one node's
/// union holds another, the other's holds it back, at the same distance.
pub proof fn lemma_pools_are_mutual(
    members: Seq<u32>,
    adjacency: Seq<Vec<OrderedNode>>,
    i: int,
    j: int,
    pool: Seq<OrderedNode>,
    other_pool: Seq<OrderedNode>,
    dist: Single,
)
    requires
        members.no_duplicates(),
        adjacency.len() == members.len(),
        0 <= i < members.len(),
        0 <= j < members.len(),
        is_pool(members, adjacency, i, pool),
        is_pool(members, adjacency, j, other_pool),
        pool.contains((OrderedNode { id: members[j], dist })),
    ensures
        other_pool.contains((OrderedNode { id: members[i], dist })),
{
    let x = OrderedNode { id: members[j], dist };
    lemma_pool_entries(members, adjacency, i, pool);
    lemma_pool_entries(members, adjacency, j, other_pool);
    let p = choose|p: int| 0 <= p < pool.len() && pool[p] == x;
    assert(is_edge(members, adjacency, i, pool[p]));
    lemma_edges_are_mutual(members, adjacency, i, j, dist);
    let q = lemma_pool_entry(
        members,
        adjacency,
        j,
        other_pool,
        OrderedNode { id: members[i], dist },
    );
    let y = other_pool[q];
    assert(is_edge(members, adjacency, j, y));
    assert(y == (OrderedNode { id: members[i], dist: y.dist }));
    lemma_edges_are_mutual(members, adjacency, j, i, y.dist);
    let s = lemma_pool_entry(
        members,
        adjacency,
        i,
        pool,
        OrderedNode { id: members[j], dist: y.dist },
    );
    assert(s == p);
    assert(y.dist.total_rank() == dist.total_rank());
    assert(y.dist == dist);
    assert(other_pool.contains(other_pool[q]));
}

/// Whether a neighbour table lists, for each node, distinct nodes other than the
/// node itself.
pub open spec fn lists_others(knn: &ExactKnn) -> bool {
    forall|i: int|
        0 <= i < knn.num_nodes ==> (#[trigger] knn.ids_of(i)).no_duplicates() && forall|r: int|
            0 <= r < knn.k ==> #[trigger] knn.ids_of(i)[r] != i
}

/// A sound selection from the exact candidates of a level stays on the level and
/// makes no loops.
pub proof fn lemma_selection_is_closed<Sel>(
    select: &Sel,
    len: int,
    members: Seq<u32>,
    knn: &ExactKnn,
    m_max: usize,
    selected: Seq<Vec<OrderedNode>>,
) where Sel: Fn(Vec<OrderedNode>, usize) -> Vec<OrderedNode>
    requires
        selection_is_sound(select),
        is_level(members, len),
        is_table_of(members, knn),
        lists_others(knn),
        is_selection(select, members, knn, m_max, selected),
    ensures
        is_closed(members, selected),
        has_no_loops(members, selected),
{
    assert forall|i: int, x: OrderedNode|
        0 <= i < selected.len() && #[trigger] selected[i]@.contains(x) implies members.contains(
        x.id,
    ) && x.id != members[i] by {
        let candidates = candidates_of(members, knn, i);
        lemma_selected(select, candidates, m_max, selected[i]@);
        assert(candidates.contains(x));
        let r = choose|r: int| 0 <= r < candidates.len() && candidates[r] == x;
        lemma_row_fits(i, knn.num_nodes as int, knn.k as int);
        assert(knn.ids_of(i)[r] == knn.ids@[i * knn.k + r]);
        assert(knn.ids_of(i)[r] != i);
        assert(x.id == members[knn.ids_of(i)[r] as int]);
    }
    assert forall|i: int, e: int|
        0 <= i < selected.len() && 0 <= e < selected[i]@.len() implies #[trigger] leads_inside(
        members,
        selected,
        i,
        e,
    ) by {
        assert(selected[i]@.contains(selected[i]@[e]));
    }
}

/// With a sound selection no neighbour is ever picked outside its level, so the
/// construction never reports that.
pub proof fn lemma_no_stray_neighbour<Sel>(
    select: &Sel,
    len: int,
    members: Seq<u32>,
    knn: &ExactKnn,
    m_max: usize,
    error: Error,
) where Sel: Fn(Vec<OrderedNode>, usize) -> Vec<OrderedNode>
    requires
        selection_is_sound(select),
        is_level(members, len),
        is_table_of(members, knn),
        lists_others(knn),
    ensures
        !is_stray_error(select, members, knn, m_max, error),
{
    if is_stray_error(select, members, knn, m_max, error) {
        let (selected, i, e) = choose|selected: Seq<Vec<OrderedNode>>, i: int, e: int|
            #[trigger] is_selection(select, members, knn, m_max, selected)
                && #[trigger] is_first_stray(members, selected, i, e);
        lemma_selection_is_closed(select, len, members, knn, m_max, selected);
        assert(leads_inside(members, selected, i, e));
    }
}

/// The table of a level lists, for each of its nodes, distinct others.
pub proof fn lemma_level_table<P, Pack, Score>(
    pack: &Pack,
    score: &Score,
    vectors: Seq<u16>,
    dim: usize,
    levels: Seq<usize>,
    level: int,
    ef_construction: usize,
    knn: ExactKnn,
) where
    Pack: Fn(&[u16], usize, usize) -> Option<(P, usize)>,
    Score: Fn(&P, &[u16], usize, usize, usize) -> Vec<Single>,

    requires
        levels.len() <= u32::MAX,
        is_level_table(pack, score, vectors, dim, levels, level, ef_construction, Ok(knn)),
    ensures
        is_table_of(members_of(levels, level, levels.len() as int), &knn),
        lists_others(&knn),
{
    let members = members_of(levels, level, levels.len() as int);
    lemma_members_of(levels, level, levels.len() as int);
    let n = members.len() as int;
    let k = knn.k as int;
    let own = level_vectors(vectors, dim as int, levels, level);
    assert forall|i: int| 0 <= i < n implies (#[trigger] knn.ids_of(i)).no_duplicates() && forall|
        r: int,
    |
        0 <= r < k ==> #[trigger] knn.ids_of(i)[r] != i && knn.ids_of(i)[r] < n by {
        lemma_row_fits(i, n, k);
        if k > 0 {
            let scores = choose|scores: Scores|
                #[trigger] is_score_table(pack, score, own, n, dim, true, scores)
                    && knn.is_exact(scores);
            lemma_lists_others(pack, score, own, n, dim, true, scores, &knn, i);
        }
    }
    assert forall|p: int| 0 <= p < knn.ids@.len() implies #[trigger] knn.ids@[p] < n by {
        let i = crate::knn::lemma_slot_owner(p, n, k);
        lemma_row_fits(i, n, k);
        assert(knn.ids_of(i)[p - i * k] == knn.ids@[p]);
        assert(knn.ids_of(i).no_duplicates());
    }
}

/// Every node of a built graph has, on every level it is on, at most as many
/// neighbours as the level allows, all distinct, on that level, and none the node
/// itself.
pub proof fn lemma_graph_is_sound<P, Sel, Pack, Score>(
    select: &Sel,
    pack: &Pack,
    score: &Score,
    params: HnswBuildParams,
    vectors: Seq<u16>,
    dim: usize,
    levels: Seq<usize>,
    hnsw: &Hnsw,
    level: int,
    p: int,
) where
    Sel: Fn(Vec<OrderedNode>, usize) -> Vec<OrderedNode>,
    Pack: Fn(&[u16], usize, usize) -> Option<(P, usize)>,
    Score: Fn(&P, &[u16], usize, usize, usize) -> Vec<Single>,

    requires
        2 * params.m <= usize::MAX,
        selection_is_sound(select),
        is_graph(select, pack, score, params, vectors, dim, levels, hnsw),
        0 <= level,
        0 <= p < members_of(levels, level, levels.len() as int).len(),
    ensures
        ({
            let members = members_of(levels, level, levels.len() as int);
            let node = hnsw.nodes@[members[p] as int];
            &&& is_neighbour_list(
                node.level_neighbors_ranked@[level]@,
                members,
                members[p],
                degree_cap(params.m as int, level),
            )
            &&& node.level_neighbors@[level]@ == ids_of(node.level_neighbors_ranked@[level]@)
            &&& node.bottom_neighbors@ == node.level_neighbors@[0]@
        }),
{
    let members = members_of(levels, level, levels.len() as int);
    lemma_members_of(levels, level, levels.len() as int);
    let ranked = ranked_of(hnsw);
    let id = members[p] as int;
    assert(members[p] < levels.len());
    assert(ranked[id]@.len() == levels[id]);
    assert(ranked[id] == hnsw.nodes@[id].level_neighbors_ranked);
    assert(is_node_of(hnsw.nodes@[id], hnsw.nodes@[id].level_neighbors_ranked@));
    assert(is_level_filled(select, pack, score, params, vectors, dim, levels, level, ranked));
    if is_connected(levels, params.max_level as int, level) {
        let m_max = degree_cap(params.m as int, level) as usize;
        let (knn, rows) = choose|knn: ExactKnn, rows: Seq<Vec<OrderedNode>>|
            {
                &&& #[trigger] is_level_table(
                    pack,
                    score,
                    vectors,
                    dim,
                    levels,
                    level,
                    params.ef_construction,
                    Ok(knn),
                )
                &&& #[trigger] is_level_graph(select, members, &knn, m_max, rows)
                &&& forall|p: int|
                    0 <= p < members.len() ==> ranked[(#[trigger] members[p]) as int]@[level]
                        == rows[p]
            };
        lemma_level_table(
            pack,
            score,
            vectors,
            dim,
            levels,
            level,
            params.ef_construction,
            knn,
        );
        let selected = choose|selected: Seq<Vec<OrderedNode>>|
            {
                &&& #[trigger] is_selection(select, members, &knn, m_max, selected)
                &&& is_closed(members, selected)
                &&& forall|i: int|
                    0 <= i < rows.len() ==> is_merged_row(
                        select,
                        members,
                        selected,
                        m_max,
                        i,
                        (#[trigger] rows[i])@,
                    )
            };
        lemma_selection_is_closed(select, levels.len() as int, members, &knn, m_max, selected);
        lemma_merged_row_is_sound(
            select,
            levels.len() as int,
            members,
            selected,
            m_max,
            p,
            rows[p]@,
        );
    }
}

/// Whether the selection, asked for at least one of some candidates, keeps one
/// that no other is nearer than.
pub open spec fn selection_keeps_nearest<Sel>(select: &Sel) -> bool where
    Sel: Fn(Vec<OrderedNode>, usize) -> Vec<OrderedNode>,
 {
    forall|c: Vec<OrderedNode>, m: usize, o: Vec<OrderedNode>| #[trigger]
        call_ensures(*select, (c, m), o) && c@.len() > 0 && m > 0 ==> holds_nearest(o@, c@)
}

/// Whether `kept` holds one of which no candidate is nearer.
pub open spec fn holds_nearest(kept: Seq<OrderedNode>, candidates: Seq<OrderedNode>) -> bool {
    exists|p: int|
        0 <= p < kept.len() && forall|q: int|
            0 <= q < candidates.len() ==> (#[trigger] kept[p]).dist.total_rank() <= (
            #[trigger] candidates[q]).dist.total_rank()
}

/// Whether nothing in a list is nearer than `bound`.
spec fn is_no_nearer(nodes: Seq<OrderedNode>, bound: int) -> bool {
    forall|x: OrderedNode| #[trigger] nodes.contains(x) ==> bound <= x.dist.total_rank()
}

/// Whether something in a list is as near as `bound`.
spec fn attains(nodes: Seq<OrderedNode>, bound: int) -> bool {
    exists|x: OrderedNode| #[trigger] nodes.contains(x) && x.dist.total_rank() <= bound
}

proof fn lemma_nearest_selected<Sel>(
    select: &Sel,
    candidates: Seq<OrderedNode>,
    m: usize,
    kept: Seq<OrderedNode>,
    bound: int,
) where Sel: Fn(Vec<OrderedNode>, usize) -> Vec<OrderedNode>
    requires
        selection_keeps_nearest(select),
        selects(select, candidates, m, kept),
        m > 0,
        attains(candidates, bound),
    ensures
        attains(kept, bound),
{
    let (c, o) = choose|c: Vec<OrderedNode>, o: Vec<OrderedNode>|
        c@ == candidates && o@ == kept && #[trigger] call_ensures(*select, (c, m), o);
    let x = choose|x: OrderedNode| #[trigger]
        candidates.contains(x) && x.dist.total_rank() <= bound;
    let q = choose|q: int| 0 <= q < candidates.len() && candidates[q] == x;
    assert(holds_nearest(o@, c@));
    let p = choose|p: int|
        0 <= p < kept.len() && forall|q: int|
            0 <= q < candidates.len() ==> (#[trigger] kept[p]).dist.total_rank() <= (
            #[trigger] candidates[q]).dist.total_rank();
    assert(kept[p].dist.total_rank() <= candidates[q].dist.total_rank());
    assert(kept.contains(kept[p]));
}

/// Where nothing in a pool is nearer than `bound` and something is as near, a row
/// kept of it starts with a neighbour at `bound`.
proof fn lemma_row_starts_at<Sel>(
    select: &Sel,
    pool: Seq<OrderedNode>,
    m_max: usize,
    row: Seq<OrderedNode>,
    bound: int,
) where Sel: Fn(Vec<OrderedNode>, usize) -> Vec<OrderedNode>
    requires
        selection_is_sound(select),
        selection_keeps_nearest(select),
        is_kept(select, pool, m_max, row),
        m_max > 0,
        is_no_nearer(pool, bound),
        attains(pool, bound),
    ensures
        row.len() > 0,
        row[0].dist.total_rank() == bound,
{
    lemma_kept(select, pool, m_max, row);
    assert(attains(row, bound)) by {
        if pool.len() > m_max {
            let kept = choose|kept: Seq<OrderedNode>|
                #[trigger] selects(select, pool, m_max, kept) && row.to_multiset()
                    == kept.to_multiset();
            lemma_nearest_selected(select, pool, m_max, kept, bound);
            lemma_same_nodes(kept, row);
            let x = choose|x: OrderedNode| #[trigger]
                kept.contains(x) && x.dist.total_rank() <= bound;
            assert(row.contains(x));
        } else {
            lemma_same_nodes(pool, row);
            let x = choose|x: OrderedNode| #[trigger]
                pool.contains(x) && x.dist.total_rank() <= bound;
            assert(row.contains(x));
        }
    }
    let x = choose|x: OrderedNode| #[trigger] row.contains(x) && x.dist.total_rank() <= bound;
    let p = choose|p: int| 0 <= p < row.len() && row[p] == x;
    assert(row.contains(row[0]));
    assert(node_key(false, row[0]) <= node_key(false, row[p]));
    lemma_node_key(false, row[0], row[p]);
}

/// The distance at which node `j` lists node `i` is no less than the distance of
/// node `i`'s own nearest neighbour: with one score for both orders of a pair,
/// no node is nearer to `i` than `i` knows.
proof fn lemma_back_edge_is_no_nearer(
    knn: &ExactKnn,
    scores: Scores,
    i: int,
    j: int,
    r: int,
)
    requires
        knn.is_exact(scores),
        knn.k > 0,
        forall|x: (int, int)| #[trigger] scores.contains_key(x) ==> scores.contains_key(
            (x.1, x.0),
        ) && scores[x] == scores[(x.1, x.0)],
        0 <= i < knn.num_nodes,
        0 <= j < knn.num_nodes,
        0 <= r < knn.k,
        knn.ids_of(j)[r] == i,
    ensures
        knn.distances_of(i)[0].total_rank() <= knn.distances_of(j)[r].total_rank(),
{
    let k = knn.k as int;
    lemma_row_fits(i, knn.num_nodes as int, k);
    lemma_row_fits(j, knn.num_nodes as int, k);
    assert(is_exact_at(knn.ids@, knn.distances@, k, scores, i));
    assert(is_exact_at(knn.ids@, knn.distances@, k, scores, j));
    let theirs = knn.ids_of(j);
    assert(scores.contains_key((j, theirs[r] as int)));
    assert(scores.contains_key((i, j)) && scores[(i, j)] == scores[(j, i)]);
    lemma_first_is_nearest(
        knn.ids_of(i),
        knn.distances_of(i),
        scores,
        i,
        j,
        knn.distances_of(j)[r],
    );
}

/// On a level whose table is exact by symmetric scores, every node's first edge is
/// at the distance of its true nearest neighbour, where the selection always keeps
/// the nearest candidate.
pub proof fn lemma_first_edge_is_nearest<Sel>(
    select: &Sel,
    len: int,
    members: Seq<u32>,
    knn: &ExactKnn,
    scores: Scores,
    m_max: usize,
    rows: Seq<Vec<OrderedNode>>,
    i: int,
) where Sel: Fn(Vec<OrderedNode>, usize) -> Vec<OrderedNode>
    requires
        selection_is_sound(select),
        selection_keeps_nearest(select),
        is_level(members, len),
        is_table_of(members, knn),
        lists_others(knn),
        knn.is_exact(scores),
        forall|x: (int, int)| #[trigger] scores.contains_key(x) ==> scores.contains_key(
            (x.1, x.0),
        ) && scores[x] == scores[(x.1, x.0)],
        knn.k > 0,
        m_max > 0,
        is_level_graph(select, members, knn, m_max, rows),
        0 <= i < members.len(),
    ensures
        rows[i]@.len() > 0,
        rows[i]@[0].dist == knn.distances_of(i)[0],
        forall|j: int, distance: Single|
            scores.contains_key((i, j)) && is_admissible(scores[(i, j)])
                && #[trigger] scores[(i, j)].is_one_minus(distance)
                ==> rows[i]@[0].dist.total_rank() <= distance.total_rank(),
{
    let k = knn.k as int;
    let bound = knn.distances_of(i)[0].total_rank();
    lemma_row_fits(i, knn.num_nodes as int, k);
    let selected = choose|selected: Seq<Vec<OrderedNode>>|
        {
            &&& #[trigger] is_selection(select, members, knn, m_max, selected)
            &&& is_closed(members, selected)
            &&& forall|i: int|
                0 <= i < rows.len() ==> is_merged_row(
                    select,
                    members,
                    selected,
                    m_max,
                    i,
                    (#[trigger] rows[i])@,
                )
        };
    assert(is_merged_row(select, members, selected, m_max, i, rows[i]@));
    let pool = choose|pool: Seq<OrderedNode>|
        #[trigger] is_pool(members, selected, i, pool) && is_kept(
            select,
            pool,
            m_max,
            rows[i]@,
        );
    let candidates = candidates_of(members, knn, i);
    assert(selects(select, candidates, m_max, selected[i]@));
    lemma_selected(select, candidates, m_max, selected[i]@);
    assert(is_exact_at(knn.ids@, knn.distances@, k, scores, i));
    lemma_row_ascends(knn.ids_of(i), knn.distances_of(i), scores, i);
    assert(is_no_nearer(pool, bound)) by {
        lemma_pool_entries(members, selected, i, pool);
        assert forall|x: OrderedNode| #[trigger] pool.contains(x) implies bound
            <= x.dist.total_rank() by {
            let p = choose|p: int| 0 <= p < pool.len() && pool[p] == x;
            assert(is_edge(members, selected, i, pool[p]));
            if selected[i]@.contains(x) {
                assert(candidates.contains(x));
                let r = choose|r: int| 0 <= r < candidates.len() && candidates[r] == x;
                assert(x.dist == knn.distances_of(i)[r]);
            } else {
                let (j, e) = choose|j: int, e: int|
                    {
                        &&& 0 <= j < selected.len()
                        &&& 0 <= e < selected[j]@.len()
                        &&& j < selected.len() || (j == selected.len() && e < 0)
                        &&& (#[trigger] selected[j]@[e]).id == members[i]
                        &&& x == (OrderedNode { id: members[j], dist: selected[j]@[e].dist })
                    };
                let theirs = candidates_of(members, knn, j);
                lemma_selected(select, theirs, m_max, selected[j]@);
                assert(selected[j]@.contains(selected[j]@[e]));
                assert(theirs.contains(selected[j]@[e]));
                let r = choose|r: int| 0 <= r < theirs.len() && theirs[r] == selected[j]@[e];
                lemma_row_fits(j, knn.num_nodes as int, k);
                assert(knn.ids_of(j)[r] == knn.ids@[j * k + r]);
                assert(members[knn.ids_of(j)[r] as int] == members[i]);
                assert(knn.ids_of(j)[r] == i);
                lemma_back_edge_is_no_nearer(knn, scores, i, j, r);
            }
        }
    }
    assert(attains(pool, bound)) by {
        assert(candidates.contains(candidates[0]));
        assert(attains(candidates, bound));
        lemma_nearest_selected(select, candidates, m_max, selected[i]@, bound);
        let x = choose|x: OrderedNode| #[trigger]
            selected[i]@.contains(x) && x.dist.total_rank() <= bound;
        let p = lemma_pool_entry(members, selected, i, pool, x);
        assert(pool.contains(pool[p]));
    }
    lemma_row_starts_at(select, pool, m_max, rows[i]@, bound);
    assert forall|j: int, distance: Single|
        scores.contains_key((i, j)) && is_admissible(scores[(i, j)])
            && #[trigger] scores[(i, j)].is_one_minus(distance) implies rows[i]@[0].dist.total_rank()
        <= distance.total_rank() by {
        lemma_first_is_nearest(knn.ids_of(i), knn.distances_of(i), scores, i, j, distance);
    }
}

/// A node's edges have one union only.
pub proof fn lemma_one_pool(
    members: Seq<u32>,
    adjacency: Seq<Vec<OrderedNode>>,
    i: int,
    a: Seq<OrderedNode>,
    b: Seq<OrderedNode>,
)
    requires
        is_pool(members, adjacency, i, a),
        is_pool(members, adjacency, i, b),
    ensures
        a == b,
{
    lemma_pool_within(members, adjacency, i, a, b);
    lemma_pool_within(members, adjacency, i, b, a);
    assert(ascends(ids_of(a)) && ascends(ids_of(b))) by {
        lemma_pool_entries(members, adjacency, i, a);
        lemma_pool_entries(members, adjacency, i, b);
    }
    lemma_ascending_equal(a, b);
}

spec fn ascends(ids: Seq<u32>) -> bool {
    forall|p: int, q: int| 0 <= p < q < ids.len() ==> ids[p] < ids[q]
}

proof fn lemma_pool_within(
    members: Seq<u32>,
    adjacency: Seq<Vec<OrderedNode>>,
    i: int,
    a: Seq<OrderedNode>,
    b: Seq<OrderedNode>,
)
    requires
        is_pool(members, adjacency, i, a),
        is_pool(members, adjacency, i, b),
    ensures
        forall|x: OrderedNode| #[trigger] a.contains(x) ==> b.contains(x),
{
    assert forall|x: OrderedNode| #[trigger] a.contains(x) implies b.contains(x) by {
        lemma_pool_entries(members, adjacency, i, a);
        lemma_pool_entries(members, adjacency, i, b);
        let p = choose|p: int| 0 <= p < a.len() && a[p] == x;
        assert(is_edge(members, adjacency, i, a[p]));
        let q = lemma_pool_entry(members, adjacency, i, b, x);
        assert(is_edge(members, adjacency, i, b[q]));
        let s = lemma_pool_entry(members, adjacency, i, a, b[q]);
        assert(s == p);
        assert(b[q].dist.total_rank() == x.dist.total_rank());
        assert(b[q] == x);
        assert(b.contains(b[q]));
    }
}

/// Two lists of the same neighbours by ascending id are one list.
proof fn lemma_ascending_equal(a: Seq<OrderedNode>, b: Seq<OrderedNode>)
    requires
        ascends(ids_of(a)),
        ascends(ids_of(b)),
        forall|x: OrderedNode| #[trigger] a.contains(x) ==> b.contains(x),
        forall|x: OrderedNode| #[trigger] b.contains(x) ==> a.contains(x),
    ensures
        a == b,
    decreases a.len(),
{
    if a.len() == 0 {
        if b.len() > 0 {
            assert(b.contains(b[0]));
        }
        assert(a =~= b);
    } else {
        assert(a.contains(a.last()));
        let q = choose|q: int| 0 <= q < b.len() && b[q] == a.last();
        assert(b.contains(b.last()));
        let p = choose|p: int| 0 <= p < a.len() && a[p] == b.last();
        assert(ids_of(a)[p] == b.last().id && ids_of(b)[q] == a.last().id);
        assert(ids_of(a)[a.len() - 1] == a.last().id && ids_of(b)[b.len() - 1] == b.last().id);
        assert(p == a.len() - 1);
        let (x, y) = (a.drop_last(), b.drop_last());
        assert(a.last() == b.last());
        lemma_dropped(a, b);
        lemma_dropped(b, a);
        assert(ids_of(x) =~= ids_of(a).drop_last());
        assert(ids_of(y) =~= ids_of(b).drop_last());
        lemma_ascending_equal(x, y);
        assert(a =~= x.push(a.last()));
        assert(b =~= y.push(b.last()));
    }
}

proof fn lemma_dropped(a: Seq<OrderedNode>, b: Seq<OrderedNode>)
    requires
        a.len() > 0,
        b.len() > 0,
        a.last() == b.last(),
        ascends(ids_of(a)),
        forall|x: OrderedNode| #[trigger] a.contains(x) ==> b.contains(x),
    ensures
        forall|x: OrderedNode| #[trigger] a.drop_last().contains(x) ==> b.drop_last().contains(x),
{
    assert forall|x: OrderedNode| #[trigger] a.drop_last().contains(x) implies b.drop_last().contains(
        x,
    ) by {
        let p = choose|p: int| 0 <= p < a.len() - 1 && a[p] == x;
        assert(a.contains(a[p]));
        let q = choose|q: int| 0 <= q < b.len() && b[q] == x;
        assert(ids_of(a)[p] < ids_of(a)[a.len() - 1]);
        assert(q < b.len() - 1);
        assert(b.drop_last()[q] == x);
    }
}

/// Two lists of the same neighbours, both nearest-first, are one list.
pub proof fn lemma_one_order(a: Seq<OrderedNode>, b: Seq<OrderedNode>)
    requires
        in_order(false, a),
        in_order(false, b),
        a.to_multiset() == b.to_multiset(),
    ensures
        a == b,
    decreases a.len(),
{
    a.to_multiset_ensures();
    b.to_multiset_ensures();
    if a.len() == 0 {
        assert(a =~= b);
    } else {
        lemma_same_nodes(a, b);
        assert(a.contains(a.last()) && b.contains(b.last()));
        let q = choose|q: int| 0 <= q < b.len() && b[q] == a.last();
        let p = choose|p: int| 0 <= p < a.len() && a[p] == b.last();
        assert(node_key(false, a[p]) <= node_key(false, a[a.len() - 1]));
        assert(node_key(false, b[q]) <= node_key(false, b[b.len() - 1]));
        lemma_node_key(false, a.last(), b.last());
        let (x, y) = (a.drop_last(), b.drop_last());
        assert(a =~= x.push(a.last()));
        assert(b =~= y.push(b.last()));
        x.to_multiset_ensures();
        y.to_multiset_ensures();
        assert(x.to_multiset() =~= y.to_multiset()) by {
            assert(x.push(a.last()).to_multiset() == x.to_multiset().insert(a.last()));
            assert(y.push(b.last()).to_multiset() == y.to_multiset().insert(b.last()));
            assert forall|n: OrderedNode| x.to_multiset().count(n) == y.to_multiset().count(n) by {
                assert(x.to_multiset().insert(a.last()).count(n) == y.to_multiset().insert(
                    b.last(),
                ).count(n));
            }
        }
        lemma_one_order(x, y);
    }
}

/// Whether the selection keeps the same of the same candidates.
pub open spec fn selection_is_function<Sel>(select: &Sel) -> bool where
    Sel: Fn(Vec<OrderedNode>, usize) -> Vec<OrderedNode>,
 {
    forall|candidates: Seq<OrderedNode>, m: usize, a: Seq<OrderedNode>, b: Seq<OrderedNode>|
        #[trigger]
        selects(select, candidates, m, a) && #[trigger] selects(select, candidates, m, b) ==> a
            == b
}

/// Whether two adjacency lists hold the same edges in the same order.
pub open spec fn are_alike(a: Seq<Vec<OrderedNode>>, b: Seq<Vec<OrderedNode>>) -> bool {
    a.len() == b.len() && forall|i: int| 0 <= i < a.len() ==> (#[trigger] a[i])@ == b[i]@
}

proof fn lemma_alike_edges(
    members: Seq<u32>,
    a: Seq<Vec<OrderedNode>>,
    b: Seq<Vec<OrderedNode>>,
    i: int,
    x: OrderedNode,
)
    requires
        are_alike(a, b),
        0 <= i < a.len(),
        is_edge(members, a, i, x),
    ensures
        is_edge(members, b, i, x),
{
    if !a[i]@.contains(x) {
        let (j, e) = choose|j: int, e: int|
            {
                &&& 0 <= j < a.len()
                &&& 0 <= e < a[j]@.len()
                &&& j < a.len() || (j == a.len() && e < 0)
                &&& (#[trigger] a[j]@[e]).id == members[i]
                &&& x == (OrderedNode { id: members[j], dist: a[j]@[e].dist })
            };
        assert(b[j]@[e] == a[j]@[e]);
        assert(is_reverse(members, b, i, x, b.len() as int, 0));
    }
}

proof fn lemma_alike_pools(
    members: Seq<u32>,
    a: Seq<Vec<OrderedNode>>,
    b: Seq<Vec<OrderedNode>>,
    i: int,
    pool: Seq<OrderedNode>,
)
    requires
        are_alike(a, b),
        0 <= i < a.len(),
        is_pool(members, a, i, pool),
    ensures
        is_pool(members, b, i, pool),
{
    assert(are_alike(b, a));
    lemma_pool_entries(members, a, i, pool);
    assert forall|p: int| 0 <= p < pool.len() implies is_edge(
        members,
        b,
        i,
        #[trigger] pool[p],
    ) by {
        lemma_alike_edges(members, a, b, i, pool[p]);
    }
    assert forall|x: OrderedNode| #[trigger] is_edge(members, b, i, x) implies pool_holds(
        pool,
        x,
    ) by {
        lemma_alike_edges(members, b, a, i, x);
        let p = lemma_pool_entry(members, a, i, pool, x);
    }
    reveal(is_pool);
}

/// Merging is a function of the edges where the selection is a function of its
/// candidates.
pub proof fn lemma_one_merged_row<Sel>(
    select: &Sel,
    members: Seq<u32>,
    adjacency: Seq<Vec<OrderedNode>>,
    other_adjacency: Seq<Vec<OrderedNode>>,
    m_max: usize,
    i: int,
    row: Seq<OrderedNode>,
    other_row: Seq<OrderedNode>,
) where Sel: Fn(Vec<OrderedNode>, usize) -> Vec<OrderedNode>
    requires
        selection_is_function(select),
        are_alike(adjacency, other_adjacency),
        0 <= i < adjacency.len(),
        is_merged_row(select, members, adjacency, m_max, i, row),
        is_merged_row(select, members, other_adjacency, m_max, i, other_row),
    ensures
        row == other_row,
{
    let pool = choose|pool: Seq<OrderedNode>|
        #[trigger] is_pool(members, adjacency, i, pool) && is_kept(select, pool, m_max, row);
    let other_pool = choose|pool: Seq<OrderedNode>|
        #[trigger] is_pool(members, other_adjacency, i, pool) && is_kept(
            select,
            pool,
            m_max,
            other_row,
        );
    lemma_alike_pools(members, adjacency, other_adjacency, i, pool);
    lemma_one_pool(members, other_adjacency, i, pool, other_pool);
    if pool.len() > m_max {
        let a = choose|a: Seq<OrderedNode>|
            #[trigger] selects(select, pool, m_max, a) && row.to_multiset() == a.to_multiset();
        let b = choose|b: Seq<OrderedNode>|
            #[trigger] selects(select, pool, m_max, b) && other_row.to_multiset()
                == b.to_multiset();
        assert(a == b);
    }
    lemma_one_order(row, other_row);
}

/// What is selected of one table is the same each time.
proof fn lemma_one_selection<Sel>(
    select: &Sel,
    members: Seq<u32>,
    knn: &ExactKnn,
    other_knn: &ExactKnn,
    m_max: usize,
    a: Seq<Vec<OrderedNode>>,
    b: Seq<Vec<OrderedNode>>,
) where Sel: Fn(Vec<OrderedNode>, usize) -> Vec<OrderedNode>
    requires
        selection_is_function(select),
        knn.k == other_knn.k,
        knn.ids@ == other_knn.ids@,
        knn.distances@ == other_knn.distances@,
        is_selection(select, members, knn, m_max, a),
        is_selection(select, members, other_knn, m_max, b),
    ensures
        are_alike(a, b),
{
    assert forall|i: int| 0 <= i < a.len() implies (#[trigger] a[i])@ == b[i]@ by {
        assert(candidates_of(members, knn, i) =~= candidates_of(members, other_knn, i));
        assert(selects(select, candidates_of(members, knn, i), m_max, a[i]@));
        assert(selects(select, candidates_of(members, other_knn, i), m_max, b[i]@));
    }
}

/// Edges that are alike leave the level at the same place, if at all.
proof fn lemma_one_stray(
    members: Seq<u32>,
    a: Seq<Vec<OrderedNode>>,
    b: Seq<Vec<OrderedNode>>,
    i: int,
    e: int,
)
    requires
        are_alike(a, b),
        is_first_stray(members, a, i, e),
    ensures
        !is_closed(members, b),
        b[i]@[e] == a[i]@[e],
        forall|j: int, f: int| #[trigger]
            is_first_stray(members, b, j, f) ==> j == i && f == e,
{
    assert(a[i]@ == b[i]@);
    assert(!leads_inside(members, b, i, e));
    assert forall|j: int, f: int| #[trigger] is_first_stray(members, b, j, f) implies j == i && f
        == e by {
        assert(a[j]@ == b[j]@);
        assert(!leads_inside(members, a, j, f));
    }
}

/// The edges of a level are a function of its neighbour table where the selection
/// is a function of its candidates.
pub proof fn lemma_one_level_graph<Sel>(
    select: &Sel,
    members: Seq<u32>,
    knn: &ExactKnn,
    other_knn: &ExactKnn,
    m_max: usize,
    rows: Seq<Vec<OrderedNode>>,
    other_rows: Seq<Vec<OrderedNode>>,
) where Sel: Fn(Vec<OrderedNode>, usize) -> Vec<OrderedNode>
    requires
        selection_is_function(select),
        knn.k == other_knn.k,
        knn.ids@ == other_knn.ids@,
        knn.distances@ == other_knn.distances@,
        is_level_graph(select, members, knn, m_max, rows),
        is_level_graph(select, members, other_knn, m_max, other_rows),
    ensures
        are_alike(rows, other_rows),
{
    let a = choose|a: Seq<Vec<OrderedNode>>|
        {
            &&& #[trigger] is_selection(select, members, knn, m_max, a)
            &&& is_closed(members, a)
            &&& forall|i: int|
                0 <= i < rows.len() ==> is_merged_row(
                    select,
                    members,
                    a,
                    m_max,
                    i,
                    (#[trigger] rows[i])@,
                )
        };
    let b = choose|b: Seq<Vec<OrderedNode>>|
        {
            &&& #[trigger] is_selection(select, members, other_knn, m_max, b)
            &&& is_closed(members, b)
            &&& forall|i: int|
                0 <= i < other_rows.len() ==> is_merged_row(
                    select,
                    members,
                    b,
                    m_max,
                    i,
                    (#[trigger] other_rows[i])@,
                )
        };
    lemma_one_selection(select, members, knn, other_knn, m_max, a, b);
    assert forall|i: int| 0 <= i < rows.len() implies (#[trigger] rows[i])@ == other_rows[i]@ by {
        assert(is_merged_row(select, members, b, m_max, i, other_rows[i]@));
        lemma_one_merged_row(select, members, a, b, m_max, i, rows[i]@, other_rows[i]@);
    }
}

/// Two graphs of one partition on the same levels have the same edges on each level,
/// where the selection is a function of its candidates and the kernel one of its
/// vectors.
pub proof fn lemma_levels_agree<P, Sel, Pack, Score>(
    select: &Sel,
    pack: &Pack,
    score: &Score,
    params: HnswBuildParams,
    vectors: Seq<u16>,
    dim: usize,
    levels: Seq<usize>,
    one: &Hnsw,
    other: &Hnsw,
    level: int,
    p: int,
) where
    Sel: Fn(Vec<OrderedNode>, usize) -> Vec<OrderedNode>,
    Pack: Fn(&[u16], usize, usize) -> Option<(P, usize)>,
    Score: Fn(&P, &[u16], usize, usize, usize) -> Vec<Single>,

    requires
        selection_is_function(select),
        is_graph(select, pack, score, params, vectors, dim, levels, one),
        is_graph(select, pack, score, params, vectors, dim, levels, other),
        kernel_is_function(
            pack,
            score,
            level_vectors(vectors, dim as int, levels, level),
            members_of(levels, level, levels.len() as int).len() as int,
            dim,
        ),
        0 <= level,
        0 <= p < members_of(levels, level, levels.len() as int).len(),
    ensures
        ({
            let id = members_of(levels, level, levels.len() as int)[p] as int;
            one.nodes@[id].level_neighbors_ranked@[level]@
                == other.nodes@[id].level_neighbors_ranked@[level]@
        }),
{
    let members = members_of(levels, level, levels.len() as int);
    lemma_members_of(levels, level, levels.len() as int);
    let id = members[p] as int;
    assert(members[p] < levels.len());
    let (a, b) = (ranked_of(one), ranked_of(other));
    assert(is_level_filled(select, pack, score, params, vectors, dim, levels, level, a));
    assert(is_level_filled(select, pack, score, params, vectors, dim, levels, level, b));
    assert(a[id] == one.nodes@[id].level_neighbors_ranked);
    assert(b[id] == other.nodes@[id].level_neighbors_ranked);
    if is_connected(levels, params.max_level as int, level) {
        let m_max = degree_cap(params.m as int, level) as usize;
        let (knn, rows) = choose|knn: ExactKnn, rows: Seq<Vec<OrderedNode>>|
            {
                &&& #[trigger] is_level_table(
                    pack,
                    score,
                    vectors,
                    dim,
                    levels,
                    level,
                    params.ef_construction,
                    Ok(knn),
                )
                &&& #[trigger] is_level_graph(select, members, &knn, m_max, rows)
                &&& forall|p: int|
                    0 <= p < members.len() ==> a[(#[trigger] members[p]) as int]@[level] == rows[p]
            };
        let (other_knn, other_rows) = choose|knn: ExactKnn, rows: Seq<Vec<OrderedNode>>|
            {
                &&& #[trigger] is_level_table(
                    pack,
                    score,
                    vectors,
                    dim,
                    levels,
                    level,
                    params.ef_construction,
                    Ok(knn),
                )
                &&& #[trigger] is_level_graph(select, members, &knn, m_max, rows)
                &&& forall|p: int|
                    0 <= p < members.len() ==> b[(#[trigger] members[p]) as int]@[level] == rows[p]
            };
        lemma_one_table(
            pack,
            score,
            level_vectors(vectors, dim as int, levels, level),
            members.len() as usize,
            dim,
            listed(params.ef_construction as int, members.len() as int),
            true,
            knn,
            other_knn,
        );
        lemma_one_level_graph(
            select,
            members,
            &knn,
            &other_knn,
            m_max,
            rows,
            other_rows,
        );
    } else {
        assert(a[id]@[level]@ =~= b[id]@[level]@);
    }
}

/// Whether the kernel is a function on the vectors of every level, and packs or
/// declines them each time.
pub open spec fn kernel_is_function_on<P, Pack, Score>(
    pack: &Pack,
    score: &Score,
    vectors: Seq<u16>,
    dim: usize,
    levels: Seq<usize>,
) -> bool where
    Pack: Fn(&[u16], usize, usize) -> Option<(P, usize)>,
    Score: Fn(&P, &[u16], usize, usize, usize) -> Vec<Single>,
 {
    forall|level: int|
        0 <= level ==> kernel_is_function(
            pack,
            score,
            #[trigger] level_vectors(vectors, dim as int, levels, level),
            members_of(levels, level, levels.len() as int).len() as int,
            dim,
        ) && kernel_decides::<P, Pack>(
            pack,
            level_vectors(vectors, dim as int, levels, level),
            members_of(levels, level, levels.len() as int).len() as int,
            dim,
        )
}

/// Whether two nodes have the same neighbours on every level, in the same order and
/// at the same distances.
pub open spec fn has_same_edges(a: GraphBuilderNode, b: GraphBuilderNode) -> bool {
    &&& a.level_neighbors@.len() == b.level_neighbors@.len()
    &&& forall|level: int|
        0 <= level < a.level_neighbors@.len() ==> (#[trigger] a.level_neighbors@[level])@
            == b.level_neighbors@[level]@
    &&& forall|level: int|
        0 <= level < a.level_neighbors@.len() ==> (#[trigger] a.level_neighbors_ranked@[level])@
            == b.level_neighbors_ranked@[level]@
    &&& a.bottom_neighbors@ == b.bottom_neighbors@
}

/// Whether the level assignment of `len` nodes is always the same.
pub open spec fn assignment_is_function<Asg>(assign: &Asg, len: usize) -> bool where
    Asg: Fn(usize) -> Vec<usize>,
 {
    forall|a: Vec<usize>, b: Vec<usize>| #[trigger]
        call_ensures(*assign, (len,), a) && #[trigger] call_ensures(*assign, (len,), b) ==> a@
            == b@
}

/// A node that reaches a level is one of its members.
pub proof fn lemma_is_member(levels: Seq<usize>, level: int, len: int, id: int) -> (p: int)
    requires
        0 <= id < len <= levels.len(),
        levels.len() <= u32::MAX,
        levels[id] > level,
    ensures
        0 <= p < members_of(levels, level, len).len(),
        members_of(levels, level, len)[p] == id,
    decreases len,
{
    let before = members_of(levels, level, len - 1);
    if id == len - 1 {
        before.len() as int
    } else {
        lemma_is_member(levels, level, len - 1, id)
    }
}

/// Two graphs of one partition have the same edges and the same counts.
proof fn lemma_graphs_agree<P, Sel, Pack, Score>(
    select: &Sel,
    pack: &Pack,
    score: &Score,
    params: HnswBuildParams,
    vectors: Seq<u16>,
    dim: usize,
    levels: Seq<usize>,
    one: Hnsw,
    other: Hnsw,
) where
    Sel: Fn(Vec<OrderedNode>, usize) -> Vec<OrderedNode>,
    Pack: Fn(&[u16], usize, usize) -> Option<(P, usize)>,
    Score: Fn(&P, &[u16], usize, usize, usize) -> Vec<Single>,

    requires
        selection_is_function(select),
        kernel_is_function_on(pack, score, vectors, dim, levels),
        is_graph(select, pack, score, params, vectors, dim, levels, &one),
        is_graph(select, pack, score, params, vectors, dim, levels, &other),
    ensures
        one.nodes@.len() == other.nodes@.len(),
        forall|id: int|
            0 <= id < one.nodes@.len() ==> #[trigger] has_same_edges(
                one.nodes@[id],
                other.nodes@[id],
            ),
        one.level_count@ == other.level_count@,
{
    let (first, second) = (ranked_of(&one), ranked_of(&other));
    assert forall|id: int| 0 <= id < one.nodes@.len() implies #[trigger] has_same_edges(
        one.nodes@[id],
        other.nodes@[id],
    ) by {
        let (x, y) = (one.nodes@[id], other.nodes@[id]);
        assert(first[id] == x.level_neighbors_ranked);
        assert(second[id] == y.level_neighbors_ranked);
        assert(is_node_of(x, x.level_neighbors_ranked@));
        assert(is_node_of(y, y.level_neighbors_ranked@));
        assert forall|level: int| 0 <= level < x.level_neighbors@.len() implies (
        #[trigger] x.level_neighbors_ranked@[level])@ == y.level_neighbors_ranked@[level]@ by {
            let p = lemma_is_member(levels, level, levels.len() as int, id);
            lemma_levels_agree(
                select,
                pack,
                score,
                params,
                vectors,
                dim,
                levels,
                &one,
                &other,
                level,
                p,
            );
        }
        assert forall|level: int| 0 <= level < x.level_neighbors@.len() implies (
        #[trigger] x.level_neighbors@[level])@ == y.level_neighbors@[level]@ by {
            assert(x.level_neighbors_ranked@[level]@ == y.level_neighbors_ranked@[level]@);
        }
        if levels[id] > 0 {
            assert(x.level_neighbors_ranked@[0]@ == y.level_neighbors_ranked@[0]@);
        }
    }
    assert(one.level_count@ =~= other.level_count@);
}

/// A level that gives an error gives it each time, in the same words, and has no
/// edges.
proof fn lemma_one_level_error<P, Sel, Pack, Score>(
    select: &Sel,
    pack: &Pack,
    score: &Score,
    params: HnswBuildParams,
    vectors: Seq<u16>,
    dim: usize,
    levels: Seq<usize>,
    level: int,
    error: Error,
) where
    Sel: Fn(Vec<OrderedNode>, usize) -> Vec<OrderedNode>,
    Pack: Fn(&[u16], usize, usize) -> Option<(P, usize)>,
    Score: Fn(&P, &[u16], usize, usize, usize) -> Vec<Single>,

    requires
        selection_is_function(select),
        kernel_is_function_on(pack, score, vectors, dim, levels),
        levels.len() <= u32::MAX,
        is_level_error(select, pack, score, params, vectors, dim, levels, level, error),
    ensures
        !is_level_served(select, pack, score, params, vectors, dim, levels, level),
        forall|other: Error| #[trigger]
            is_level_error(select, pack, score, params, vectors, dim, levels, level, other)
                ==> error.says(other),
{
    let members = members_of(levels, level, levels.len() as int);
    let own = level_vectors(vectors, dim as int, levels, level);
    let k = listed(params.ef_construction as int, members.len() as int);
    let m_max = degree_cap(params.m as int, level) as usize;
    let ef = params.ef_construction;
    lemma_members_of(levels, level, levels.len() as int);
    assert(kernel_is_function(pack, score, own, members.len() as int, dim));
    assert forall|r: Result<ExactKnn, Error>, s: Result<ExactKnn, Error>|
        #[trigger] is_level_table(pack, score, vectors, dim, levels, level, ef, r)
            && #[trigger] is_level_table(
            pack,
            score,
            vectors,
            dim,
            levels,
            level,
            ef,
            s,
        ) implies is_one_answer(r, s) by {
        lemma_one_answer(pack, score, own, members.len() as usize, dim, k, true, r, s);
    }
    if is_level_table(pack, score, vectors, dim, levels, level, ef, Err(error)) {
        let refused: Result<ExactKnn, Error> = Err(error);
        if is_level_served(select, pack, score, params, vectors, dim, levels, level) {
            let (knn, rows) = choose|knn: ExactKnn, rows: Seq<Vec<OrderedNode>>|
                {
                    &&& #[trigger] is_level_table(
                        pack,
                        score,
                        vectors,
                        dim,
                        levels,
                        level,
                        ef,
                        Ok(knn),
                    )
                    &&& #[trigger] is_level_graph(select, members, &knn, m_max, rows)
                };
            assert(is_one_answer(refused, Ok(knn)));
        }
        assert forall|other: Error| #[trigger]
            is_level_error(
                select,
                pack,
                score,
                params,
                vectors,
                dim,
                levels,
                level,
                other,
            ) implies error.says(other) by {
            if is_level_table(pack, score, vectors, dim, levels, level, ef, Err(other)) {
                assert(is_one_answer(refused, Err(other)));
            } else {
                let knn = choose|knn: ExactKnn|
                    {
                        &&& #[trigger] is_level_table(
                            pack,
                            score,
                            vectors,
                            dim,
                            levels,
                            level,
                            ef,
                            Ok(knn),
                        )
                        &&& is_stray_error(select, members, &knn, m_max, other)
                    };
                assert(is_one_answer(refused, Ok(knn)));
            }
        }
    } else {
        let knn = choose|knn: ExactKnn|
            {
                &&& #[trigger] is_level_table(
                    pack,
                    score,
                    vectors,
                    dim,
                    levels,
                    level,
                    ef,
                    Ok(knn),
                )
                &&& is_stray_error(select, members, &knn, m_max, error)
            };
        let table: Result<ExactKnn, Error> = Ok(knn);
        if is_level_served(select, pack, score, params, vectors, dim, levels, level) {
            let (other_knn, rows) = choose|knn: ExactKnn, rows: Seq<Vec<OrderedNode>>|
                {
                    &&& #[trigger] is_level_table(
                        pack,
                        score,
                        vectors,
                        dim,
                        levels,
                        level,
                        ef,
                        Ok(knn),
                    )
                    &&& #[trigger] is_level_graph(select, members, &knn, m_max, rows)
                };
            assert(is_one_answer(table, Ok(other_knn)));
            lemma_stray_or_edges(select, members, &knn, &other_knn, m_max, error, rows);
        }
        assert forall|other: Error| #[trigger]
            is_level_error(
                select,
                pack,
                score,
                params,
                vectors,
                dim,
                levels,
                level,
                other,
            ) implies error.says(other) by {
            if is_level_table(pack, score, vectors, dim, levels, level, ef, Err(other)) {
                assert(is_one_answer(table, Err(other)));
            } else {
                let other_knn = choose|knn: ExactKnn|
                    {
                        &&& #[trigger] is_level_table(
                            pack,
                            score,
                            vectors,
                            dim,
                            levels,
                            level,
                            ef,
                            Ok(knn),
                        )
                        &&& is_stray_error(select, members, &knn, m_max, other)
                    };
                assert(is_one_answer(table, Ok(other_knn)));
                lemma_one_stray_error(select, members, &knn, &other_knn, m_max, error, other);
            }
        }
    }
}

/// Whether two answers are the same table, or errors of one kind that say the same.
spec fn is_one_answer(r: Result<ExactKnn, Error>, s: Result<ExactKnn, Error>) -> bool {
    match (r, s) {
        (Ok(one), Ok(other)) => {
            &&& one.k == other.k
            &&& one.ids@ == other.ids@
            &&& one.distances@ == other.distances@
        },
        (Err(e), Err(f)) => e.says(f),
        _ => false,
    }
}

/// A stray neighbour of one table is reported in the same words each time.
proof fn lemma_one_stray_error<Sel>(
    select: &Sel,
    members: Seq<u32>,
    knn: &ExactKnn,
    other_knn: &ExactKnn,
    m_max: usize,
    error: Error,
    other: Error,
) where Sel: Fn(Vec<OrderedNode>, usize) -> Vec<OrderedNode>
    requires
        selection_is_function(select),
        is_one_answer(Ok(*knn), Ok(*other_knn)),
        is_stray_error(select, members, knn, m_max, error),
        is_stray_error(select, members, other_knn, m_max, other),
    ensures
        error.says(other),
{
    let (a, i, e) = choose|selected: Seq<Vec<OrderedNode>>, i: int, e: int|
        {
            &&& #[trigger] is_selection(select, members, knn, m_max, selected)
            &&& #[trigger] is_first_stray(members, selected, i, e)
            &&& error.text() == stray_neighbour(selected[i]@[e].id as nat, members[i] as nat)
        };
    let (b, j, f) = choose|selected: Seq<Vec<OrderedNode>>, i: int, e: int|
        {
            &&& #[trigger] is_selection(select, members, other_knn, m_max, selected)
            &&& #[trigger] is_first_stray(members, selected, i, e)
            &&& other.text() == stray_neighbour(selected[i]@[e].id as nat, members[i] as nat)
        };
    lemma_one_selection(select, members, knn, other_knn, m_max, a, b);
    lemma_one_stray(members, a, b, i, e);
    assert(is_first_stray(members, b, j, f));
}

/// A table with a stray neighbour has no edges.
proof fn lemma_stray_or_edges<Sel>(
    select: &Sel,
    members: Seq<u32>,
    knn: &ExactKnn,
    other_knn: &ExactKnn,
    m_max: usize,
    error: Error,
    rows: Seq<Vec<OrderedNode>>,
) where Sel: Fn(Vec<OrderedNode>, usize) -> Vec<OrderedNode>
    requires
        selection_is_function(select),
        is_one_answer(Ok(*knn), Ok(*other_knn)),
        is_stray_error(select, members, knn, m_max, error),
    ensures
        !is_level_graph(select, members, other_knn, m_max, rows),
{
    if is_level_graph(select, members, other_knn, m_max, rows) {
        let (a, i, e) = choose|selected: Seq<Vec<OrderedNode>>, i: int, e: int|
            {
                &&& #[trigger] is_selection(select, members, knn, m_max, selected)
                &&& #[trigger] is_first_stray(members, selected, i, e)
                &&& error.text() == stray_neighbour(selected[i]@[e].id as nat, members[i] as nat)
            };
        let b = choose|b: Seq<Vec<OrderedNode>>|
            #[trigger] is_selection(select, members, other_knn, m_max, b) && is_closed(members, b);
        lemma_one_selection(select, members, knn, other_knn, m_max, a, b);
        lemma_one_stray(members, a, b, i, e);
    }
}

/// A built graph serves every level.
proof fn lemma_graph_is_served<P, Sel, Pack, Score>(
    select: &Sel,
    pack: &Pack,
    score: &Score,
    params: HnswBuildParams,
    vectors: Seq<u16>,
    dim: usize,
    levels: Seq<usize>,
    hnsw: Hnsw,
    level: int,
) where
    Sel: Fn(Vec<OrderedNode>, usize) -> Vec<OrderedNode>,
    Pack: Fn(&[u16], usize, usize) -> Option<(P, usize)>,
    Score: Fn(&P, &[u16], usize, usize, usize) -> Vec<Single>,

    requires
        is_graph(select, pack, score, params, vectors, dim, levels, &hnsw),
        0 <= level,
    ensures
        is_level_served(select, pack, score, params, vectors, dim, levels, level),
{
    let ranked = ranked_of(&hnsw);
    assert(is_level_filled(select, pack, score, params, vectors, dim, levels, level, ranked));
    if is_connected(levels, params.max_level as int, level) {
        let members = members_of(levels, level, levels.len() as int);
        let m_max = degree_cap(params.m as int, level) as usize;
        let ef = params.ef_construction;
        let (knn, rows) = choose|knn: ExactKnn, rows: Seq<Vec<OrderedNode>>|
            {
                &&& #[trigger] is_level_table(
                    pack,
                    score,
                    vectors,
                    dim,
                    levels,
                    level,
                    ef,
                    Ok(knn),
                )
                &&& #[trigger] is_level_graph(select, members, &knn, m_max, rows)
                &&& forall|p: int|
                    0 <= p < members.len() ==> ranked[(#[trigger] members[p]) as int]@[level]
                        == rows[p]
            };
        assert(is_level_table(pack, score, vectors, dim, levels, level, ef, Ok(knn))
            && is_level_graph(select, members, &knn, m_max, rows));
    }
}

/// Whether two graphs are one: as many nodes, each on as many levels, with the same
/// neighbours at the same distances on every level and in the same order, the same
/// counts and the same entry point.
pub open spec fn is_same_graph(a: Hnsw, b: Hnsw) -> bool {
    &&& a.params == b.params
    &&& a.nodes@.len() == b.nodes@.len()
    &&& forall|id: int|
        0 <= id < a.nodes@.len() ==> #[trigger] has_same_edges(a.nodes@[id], b.nodes@[id])
    &&& a.level_count@ == b.level_count@
    &&& a.entry_point == b.entry_point
}

/// Whether the entry point of one layering is always the same.
pub open spec fn entry_is_function<Ent>(entry: &Ent) -> bool where Ent: Fn(&Vec<usize>) -> u32 {
    forall|a: Vec<usize>, b: Vec<usize>, x: u32, y: u32|
        a@ == b@ && #[trigger] call_ensures(*entry, (&a,), x) && #[trigger] call_ensures(
            *entry,
            (&b,),
            y,
        ) ==> x == y
}

/// [`lemma_builds_agree`], of a partition that the exact path covers.
proof fn lemma_built_alike<P, Asg, Ent, Sel, Pack, Score>(
    assign: &Asg,
    entry: &Ent,
    select: &Sel,
    pack: &Pack,
    score: &Score,
    params: HnswBuildParams,
    vectors: Seq<u16>,
    dim: usize,
    len: usize,
    r: Result<Hnsw, Error>,
    s: Result<Hnsw, Error>,
) where
    Asg: Fn(usize) -> Vec<usize>,
    Ent: Fn(&Vec<usize>) -> u32,
    Sel: Fn(Vec<OrderedNode>, usize) -> Vec<OrderedNode>,
    Pack: Fn(&[u16], usize, usize) -> Option<(P, usize)>,
    Score: Fn(&P, &[u16], usize, usize, usize) -> Vec<Single>,

    requires
        assignment_is_function(assign, len),
        entry_is_function(entry),
        selection_is_function(select),
        forall|levels: Vec<usize>| #[trigger]
            call_ensures(*assign, (len,), levels) ==> kernel_is_function_on(
                pack,
                score,
                vectors,
                dim,
                levels@,
            ),
        is_built(assign, entry, select, pack, score, params, vectors, dim, len, r),
        is_built(assign, entry, select, pack, score, params, vectors, dim, len, s),
    ensures
        match (r, s) {
            (Ok(one), Ok(other)) => is_same_graph(one, other),
            (Err(e), Err(f)) => e.says(f),
            _ => false,
        },
{
    let a = choose|levels: Vec<usize>|
        {
            &&& #[trigger] call_ensures(*assign, (len,), levels)
            &&& levels@.len() == len
            &&& match r {
                Ok(hnsw) => {
                    &&& is_graph(select, pack, score, params, vectors, dim, levels@, &hnsw)
                    &&& call_ensures(*entry, (&levels,), hnsw.entry_point)
                },
                Err(error) => is_build_error(
                    select,
                    pack,
                    score,
                    params,
                    vectors,
                    dim,
                    levels@,
                    error,
                ),
            }
        };
    let b = choose|levels: Vec<usize>|
        {
            &&& #[trigger] call_ensures(*assign, (len,), levels)
            &&& levels@.len() == len
            &&& match s {
                Ok(hnsw) => {
                    &&& is_graph(select, pack, score, params, vectors, dim, levels@, &hnsw)
                    &&& call_ensures(*entry, (&levels,), hnsw.entry_point)
                },
                Err(error) => is_build_error(
                    select,
                    pack,
                    score,
                    params,
                    vectors,
                    dim,
                    levels@,
                    error,
                ),
            }
        };
    let levels = a@;
    assert(b@ == levels);
    match (r, s) {
        (Ok(one), Ok(other)) => {
            lemma_graphs_agree(select, pack, score, params, vectors, dim, levels, one, other);
        },
        (Err(e), _) => {
            lemma_fails_again(select, pack, score, params, vectors, dim, levels, e);
            if s is Ok {
                lemma_no_graph(
                    select,
                    pack,
                    score,
                    params,
                    vectors,
                    dim,
                    levels,
                    e,
                    s->Ok_0,
                );
            }
        },
        (Ok(one), Err(f)) => {
            lemma_no_graph(select, pack, score, params, vectors, dim, levels, f, one);
        },
    }
}

/// A build that fails fails each time, in the same words.
proof fn lemma_fails_again<P, Sel, Pack, Score>(
    select: &Sel,
    pack: &Pack,
    score: &Score,
    params: HnswBuildParams,
    vectors: Seq<u16>,
    dim: usize,
    levels: Seq<usize>,
    error: Error,
) where
    Sel: Fn(Vec<OrderedNode>, usize) -> Vec<OrderedNode>,
    Pack: Fn(&[u16], usize, usize) -> Option<(P, usize)>,
    Score: Fn(&P, &[u16], usize, usize, usize) -> Vec<Single>,

    requires
        selection_is_function(select),
        kernel_is_function_on(pack, score, vectors, dim, levels),
        is_build_error(select, pack, score, params, vectors, dim, levels, error),
    ensures
        forall|other: Error| #[trigger]
            is_build_error(select, pack, score, params, vectors, dim, levels, other)
                ==> error.says(other),
{
    if is_partition(vectors.len(), levels.len(), dim as nat, DistanceType::Dot) {
        let a = choose|level: int|
            {
                &&& #[trigger] is_level_error(
                    select,
                    pack,
                    score,
                    params,
                    vectors,
                    dim,
                    levels,
                    level,
                    error,
                )
                &&& forall|l: int|
                    0 <= l < level ==> #[trigger] is_level_served(
                        select,
                        pack,
                        score,
                        params,
                        vectors,
                        dim,
                        levels,
                        l,
                    )
            };
        lemma_one_level_error(select, pack, score, params, vectors, dim, levels, a, error);
        assert forall|other: Error| #[trigger]
            is_build_error(
                select,
                pack,
                score,
                params,
                vectors,
                dim,
                levels,
                other,
            ) implies error.says(other) by {
            let b = choose|level: int|
                {
                    &&& #[trigger] is_level_error(
                        select,
                        pack,
                        score,
                        params,
                        vectors,
                        dim,
                        levels,
                        level,
                        other,
                    )
                    &&& forall|l: int|
                        0 <= l < level ==> #[trigger] is_level_served(
                            select,
                            pack,
                            score,
                            params,
                            vectors,
                            dim,
                            levels,
                            l,
                        )
                };
            lemma_one_level_error(select, pack, score, params, vectors, dim, levels, b, other);
            if a < b {
                assert(is_level_served(select, pack, score, params, vectors, dim, levels, a));
            }
            if b < a {
                assert(is_level_served(select, pack, score, params, vectors, dim, levels, b));
            }
        }
    }
}

/// A build that fails has no graph.
proof fn lemma_no_graph<P, Sel, Pack, Score>(
    select: &Sel,
    pack: &Pack,
    score: &Score,
    params: HnswBuildParams,
    vectors: Seq<u16>,
    dim: usize,
    levels: Seq<usize>,
    error: Error,
    hnsw: Hnsw,
) where
    Sel: Fn(Vec<OrderedNode>, usize) -> Vec<OrderedNode>,
    Pack: Fn(&[u16], usize, usize) -> Option<(P, usize)>,
    Score: Fn(&P, &[u16], usize, usize, usize) -> Vec<Single>,

    requires
        selection_is_function(select),
        kernel_is_function_on(pack, score, vectors, dim, levels),
        is_build_error(select, pack, score, params, vectors, dim, levels, error),
    ensures
        !is_graph(select, pack, score, params, vectors, dim, levels, &hnsw),
{
    if is_graph(select, pack, score, params, vectors, dim, levels, &hnsw) {
        let level = choose|level: int| #[trigger]
            is_level_error(select, pack, score, params, vectors, dim, levels, level, error);
        lemma_one_level_error(select, pack, score, params, vectors, dim, levels, level, error);
        lemma_graph_is_served(
            select,
            pack,
            score,
            params,
            vectors,
            dim,
            levels,
            hnsw,
            level,
        );
    }
}

/// Building one partition twice gives one answer: no graph both times, the same error,
/// or one graph, edge for edge and in order. The kernel, the selection, the level
/// assignment and the choice of the entry point are taken to be functions; nothing
/// else is drawn at build time, and the threads that selections run on do not show.
pub proof fn lemma_builds_agree<P, Asg, Ent, Sel, Pack, Score>(
    storage: &Partition,
    params: HnswBuildParams,
    kernel_available: bool,
    assign: &Asg,
    entry: &Ent,
    select: &Sel,
    pack: &Pack,
    score: &Score,
    r: Result<Option<Hnsw>, Error>,
    s: Result<Option<Hnsw>, Error>,
) where
    Asg: Fn(usize) -> Vec<usize>,
    Ent: Fn(&Vec<usize>) -> u32,
    Sel: Fn(Vec<OrderedNode>, usize) -> Vec<OrderedNode>,
    Pack: Fn(&[u16], usize, usize) -> Option<(P, usize)>,
    Score: Fn(&P, &[u16], usize, usize, usize) -> Vec<Single>,

    requires
        assignment_is_function(assign, storage.len),
        entry_is_function(entry),
        selection_is_function(select),
        storage.vectors matches Some((vectors, dim)) ==> forall|levels: Vec<usize>| #[trigger]
            call_ensures(*assign, (storage.len,), levels) ==> kernel_is_function_on(
                pack,
                score,
                vectors@,
                dim,
                levels@,
            ),
        is_construction(
            storage,
            params,
            kernel_available,
            assign,
            entry,
            select,
            pack,
            score,
            r,
        ),
        is_construction(
            storage,
            params,
            kernel_available,
            assign,
            entry,
            select,
            pack,
            score,
            s,
        ),
    ensures
        match (r, s) {
            (Ok(Some(one)), Ok(Some(other))) => is_same_graph(one, other),
            (Ok(None), Ok(None)) => true,
            (Err(e), Err(f)) => e.says(f),
            _ => false,
        },
{
    if is_eligible(storage, &params, kernel_available) && storage.vectors is Some {
        let (vectors, dim) = storage.vectors->0;
        let built = |r: Result<Hnsw, Error>|
            is_built(
                assign,
                entry,
                select,
                pack,
                score,
                params,
                vectors@,
                dim,
                storage.len,
                r,
            );
        let of = |r: Result<Option<Hnsw>, Error>|
            match r {
                Ok(Some(hnsw)) => Ok(hnsw),
                Ok(None) => Err(choose|e: Error| #[trigger] built(Err(e)) && e is NotSupported),
                Err(e) => Err(e),
            };
        assert forall|r: Result<Option<Hnsw>, Error>| #[trigger]
            is_construction(
                storage,
                params,
                kernel_available,
                assign,
                entry,
                select,
                pack,
                score,
                r,
            ) implies built(of(r)) && (r matches Ok(None) ==> of(r)->Err_0 is NotSupported) by {
            if r matches Ok(None) {
                let e = choose|error: Error| #[trigger]
                    is_built(
                        assign,
                        entry,
                        select,
                        pack,
                        score,
                        params,
                        vectors@,
                        dim,
                        storage.len,
                        Err(error),
                    ) && error is NotSupported;
                assert(built(Err(e)));
            }
        }
        lemma_built_alike(
            assign,
            entry,
            select,
            pack,
            score,
            params,
            vectors@,
            dim,
            storage.len,
            of(r),
            of(s),
        );
    }
}

} // verus!
