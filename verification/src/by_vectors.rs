//! What a built graph is by the vectors themselves.
use crate::error::Error;
use crate::exact_build::{
    build_from_exact_knn, candidates_of, degree_cap, eligible_vectors, gathered, into_builder_node,
    is_build_error, is_built, is_closed, is_connected, is_construction, is_edge, is_graph, is_kept,
    is_level_error, is_level_filled, is_level_graph, is_level_table, is_merged_row, is_node_of,
    is_pool, is_selection, is_stray_error, lemma_members_of, lemma_pool_entries, level_vectors,
    members_of, ranked_of, selects, Partition,
};
use crate::exact_knn::{
    is_commutative, is_nearest_table, is_packed, is_score, kernel_always_packs,
    kernel_scores_vectors, lemma_answer_by_vectors, listed, neighbour_at, possible_neighbours,
    vector_at,
};
use crate::graph::{lemma_node_key, GraphBuilderNode, Hnsw, HnswBuildParams, OrderedNode};
use crate::invariants::{
    lemma_graph_is_sound, lemma_is_member, lemma_kept, lemma_level_table,
    lemma_no_stray_neighbour, lemma_selected, selection_is_sound,
};
use crate::knn::{lemma_row_fits, ExactKnn};
use crate::merged::{edges_at, is_pruned_union, lemma_merged_row};
use crate::single::Single;
use vstd::prelude::*;

verus! {

/// The nodes of a level are those that reach it, all of them, by ascending id.
pub proof fn lemma_members_reach_the_level(levels: Seq<usize>, level: int, id: u32)
    requires
        levels.len() <= u32::MAX,
        0 <= level,
    ensures
        members_of(levels, level, levels.len() as int).contains(id) <==> id < levels.len()
            && levels[id as int] > level,
        forall|p: int, q: int|
            0 <= p < q < members_of(levels, level, levels.len() as int).len() ==> (
            #[trigger] members_of(levels, level, levels.len() as int)[p]) < (#[trigger] members_of(
                levels,
                level,
                levels.len() as int,
            )[q]),
{
    let members = members_of(levels, level, levels.len() as int);
    lemma_members_of(levels, level, levels.len() as int);
    lemma_members_ascend(levels, level, levels.len() as int);
    if members.contains(id) {
        let p = choose|p: int| 0 <= p < members.len() && members[p] == id;
        assert(members[p] < levels.len());
    }
    if id < levels.len() && levels[id as int] > level {
        let p = lemma_is_member(levels, level, levels.len() as int, id as int);
        assert(members[p] == id);
    }
}

proof fn lemma_members_ascend(levels: Seq<usize>, level: int, len: int)
    requires
        0 <= len <= u32::MAX,
    ensures
        forall|p: int, q: int|
            0 <= p < q < members_of(levels, level, len).len() ==> (#[trigger] members_of(
                levels,
                level,
                len,
            )[p]) < (#[trigger] members_of(levels, level, len)[q]),
    decreases len,
{
    if len > 0 {
        let (before, now) = (
            members_of(levels, level, len - 1),
            members_of(levels, level, len),
        );
        lemma_members_ascend(levels, level, len - 1);
        lemma_members_of(levels, level, len - 1);
        assert forall|p: int, q: int| 0 <= p < q < now.len() implies (#[trigger] now[p]) < (
        #[trigger] now[q]) by {
            assert(now[p] == before[p]);
            if q < before.len() {
                assert(now[q] == before[q]);
            } else {
                assert(before[p] < len - 1);
            }
        }
    }
}

/// The vectors that are gathered for a level are those of its members, one after the
/// other: value `c` of the one at place `p` is value `c` of the vector of `members[p]`.
pub proof fn lemma_gathers_the_members_vectors(
    vectors: Seq<u16>,
    len: int,
    dim: int,
    members: Seq<u32>,
    p: int,
    c: int,
)
    requires
        vectors.len() == len * dim,
        forall|q: int| 0 <= q < members.len() ==> #[trigger] members[q] < len,
        0 <= p < members.len(),
        0 <= c < dim,
    ensures
        gathered(vectors, dim, members).len() == members.len() * dim,
        0 <= p * dim + c < gathered(vectors, dim, members).len(),
        gathered(vectors, dim, members)[p * dim + c] == vectors[members[p] * dim + c],
    decreases members.len(),
{
    let short = members.drop_last();
    let last = members.len() - 1;
    assert(members[last] < len);
    lemma_row_fits(members[last] as int, len, dim);
    lemma_row_fits(last, last + 1, dim);
    lemma_row_fits(p, p + 1, dim);
    if last > 0 {
        assert(short[0] == members[0]);
        assert forall|q: int| 0 <= q < short.len() implies #[trigger] short[q] < len by {
            assert(short[q] == members[q]);
        }
        lemma_gathers_the_members_vectors(
            vectors,
            len,
            dim,
            short,
            if p < last {
                p
            } else {
                0
            },
            c,
        );
    } else {
        assert(gathered(vectors, dim, short).len() == 0);
        assert(last * dim == 0) by (nonlinear_arith)
            requires
                last == 0,
        ;
    }
    assert(gathered(vectors, dim, short).len() == last * dim);
    if p < last {
        lemma_row_fits(p, last, dim);
    }
}

/// The vector at place `p` of a level is that of its member there.
proof fn lemma_level_vector(
    vectors: Seq<u16>,
    dim: int,
    levels: Seq<usize>,
    level: int,
    p: int,
)
    requires
        0 <= dim,
        0 <= level,
        levels.len() <= u32::MAX,
        vectors.len() == levels.len() * dim,
        forall|id: int| 0 <= id < levels.len() ==> #[trigger] levels[id] > 0,
        0 <= p < members_of(levels, level, levels.len() as int).len(),
    ensures
        level_vectors(vectors, dim, levels, level).len() == members_of(
            levels,
            level,
            levels.len() as int,
        ).len() * dim,
        vector_at(level_vectors(vectors, dim, levels, level), dim, p) == vector_at(
            vectors,
            dim,
            members_of(levels, level, levels.len() as int)[p] as int,
        ),
{
    let len = levels.len() as int;
    let members = members_of(levels, level, len);
    lemma_members_of(levels, level, len);
    assert(members[p] < len);
    if level == 0 {
        lemma_all_are_members(levels, len);
    } else {
        let own = gathered(vectors, dim, members);
        lemma_gathered_len(vectors, dim, members, len);
        lemma_row_fits(p, members.len() as int, dim);
        lemma_row_fits(members[p] as int, len, dim);
        assert forall|c: int| 0 <= c < dim implies #[trigger] vector_at(own, dim, p)[c]
            == vector_at(vectors, dim, members[p] as int)[c] by {
            lemma_gathers_the_members_vectors(vectors, len, dim, members, p, c);
        }
        assert(vector_at(own, dim, p) =~= vector_at(vectors, dim, members[p] as int));
    }
}

proof fn lemma_gathered_len(vectors: Seq<u16>, dim: int, members: Seq<u32>, len: int)
    requires
        0 <= dim,
        vectors.len() == len * dim,
        forall|q: int| 0 <= q < members.len() ==> #[trigger] members[q] < len,
    ensures
        gathered(vectors, dim, members).len() == members.len() * dim,
    decreases members.len(),
{
    if members.len() > 0 {
        let short = members.drop_last();
        let last = members.len() - 1;
        assert(members[last] < len);
        assert forall|q: int| 0 <= q < short.len() implies #[trigger] short[q] < len by {
            assert(short[q] == members[q]);
        }
        lemma_gathered_len(vectors, dim, short, len);
        lemma_row_fits(members[last] as int, len, dim);
        lemma_row_fits(last, last + 1, dim);
    } else {
        assert(members.len() * dim == 0) by (nonlinear_arith)
            requires
                members.len() == 0,
        ;
    }
}

/// Where every node is on the bottom level, its members are all nodes in order.
proof fn lemma_all_are_members(levels: Seq<usize>, len: int)
    requires
        0 <= len <= levels.len() <= u32::MAX,
        forall|id: int| 0 <= id < levels.len() ==> #[trigger] levels[id] > 0,
    ensures
        members_of(levels, 0, len).len() == len,
        forall|p: int| 0 <= p < len ==> #[trigger] members_of(levels, 0, len)[p] == p,
    decreases len,
{
    if len > 0 {
        lemma_all_are_members(levels, len - 1);
    }
}

/// The table of a level is one of the nearest by the vectors of its members.
proof fn lemma_level_table_by_vectors<P, Pack, Score>(
    pack: &Pack,
    score: &Score,
    vectors: Seq<u16>,
    dim: usize,
    levels: Seq<usize>,
    level: int,
    ef_construction: usize,
    f: spec_fn(Seq<u16>, Seq<u16>) -> Single,
    knn: ExactKnn,
) where
    Pack: Fn(&[u16], usize, usize) -> Option<(P, usize)>,
    Score: Fn(&P, &[u16], usize, usize, usize) -> Vec<Single>,

    requires
        0 <= level,
        levels.len() <= u32::MAX,
        vectors.len() == levels.len() * dim,
        forall|id: int| 0 <= id < levels.len() ==> #[trigger] levels[id] > 0,
        members_of(levels, level, levels.len() as int).len() > 0,
        kernel_always_packs::<P, Pack>(pack),
        kernel_scores_vectors(pack, score, f),
        is_commutative(f),
        is_level_table(pack, score, vectors, dim, levels, level, ef_construction, Ok(knn)),
    ensures
        is_nearest_table(
            &knn,
            level_vectors(vectors, dim as int, levels, level),
            members_of(levels, level, levels.len() as int).len() as int,
            dim as int,
            listed(
                ef_construction as int,
                members_of(levels, level, levels.len() as int).len() as int,
            ),
            f,
        ),
{
    let members = members_of(levels, level, levels.len() as int);
    lemma_members_of(levels, level, levels.len() as int);
    lemma_level_vector(vectors, dim as int, levels, level, 0);
    lemma_answer_by_vectors(
        level_vectors(vectors, dim as int, levels, level),
        members.len() as usize,
        dim,
        ef_construction,
        true,
        pack,
        score,
        f,
        Ok(knn),
    );
}

/// Whether an edge from `node` on a level is what one is: it leads to another node of
/// the level, at one less the score of the vectors of the two.
pub open spec fn is_edge_by_vectors(
    vectors: Seq<u16>,
    dim: int,
    levels: Seq<usize>,
    level: int,
    f: spec_fn(Seq<u16>, Seq<u16>) -> Single,
    node: int,
    edge: OrderedNode,
) -> bool {
    let dot = f(vector_at(vectors, dim, node), vector_at(vectors, dim, edge.id as int));
    &&& edge.id < levels.len()
    &&& edge.id != node
    &&& levels[edge.id as int] > level
    &&& is_score(dot)
    &&& dot.is_one_minus(edge.dist)
}

/// The edges of a level by its members' vectors.
proof fn lemma_row_by_vectors<Sel>(
    select: &Sel,
    knn: &ExactKnn,
    vectors: Seq<u16>,
    dim: int,
    levels: Seq<usize>,
    level: int,
    k: int,
    m_max: usize,
    f: spec_fn(Seq<u16>, Seq<u16>) -> Single,
    rows: Seq<Vec<OrderedNode>>,
    p: int,
    x: OrderedNode,
) where Sel: Fn(Vec<OrderedNode>, usize) -> Vec<OrderedNode>
    requires
        0 <= dim,
        0 <= level,
        levels.len() <= u32::MAX,
        vectors.len() == levels.len() * dim,
        forall|id: int| 0 <= id < levels.len() ==> #[trigger] levels[id] > 0,
        selection_is_sound(select),
        is_commutative(f),
        is_nearest_table(
            knn,
            level_vectors(vectors, dim, levels, level),
            members_of(levels, level, levels.len() as int).len() as int,
            dim,
            k,
            f,
        ),
        is_level_graph(
            select,
            members_of(levels, level, levels.len() as int),
            knn,
            m_max,
            rows,
        ),
        0 <= p < members_of(levels, level, levels.len() as int).len(),
        rows[p]@.contains(x),
    ensures
        is_edge_by_vectors(
            vectors,
            dim,
            levels,
            level,
            f,
            members_of(levels, level, levels.len() as int)[p] as int,
            x,
        ),
{
    let members = members_of(levels, level, levels.len() as int);
    lemma_members_of(levels, level, levels.len() as int);
    let selected = choose|selected: Seq<Vec<OrderedNode>>|
        {
            &&& #[trigger] is_selection(select, members, knn, m_max, selected)
            &&& is_closed(members, selected)
            &&& forall|i: int|
                0 <= i < rows.len() ==> is_merged_row(
                    select,
                    members,
                    selected,
                    m_max,
                    i,
                    (#[trigger] rows[i])@,
                )
        };
    assert(is_merged_row(select, members, selected, m_max, p, rows[p]@));
    let pool = choose|pool: Seq<OrderedNode>|
        #[trigger] is_pool(members, selected, p, pool) && is_kept(
            select,
            pool,
            m_max,
            rows[p]@,
        );
    lemma_kept(select, pool, m_max, rows[p]@);
    assert(pool.contains(x));
    let at = choose|at: int| 0 <= at < pool.len() && pool[at] == x;
    lemma_pool_entries(members, selected, p, pool);
    assert(is_edge(members, selected, p, pool[at]));
    if selected[p]@.contains(x) {
        lemma_candidate_by_vectors(
            select,
            knn,
            vectors,
            dim,
            levels,
            level,
            k,
            m_max,
            f,
            selected,
            p,
            x,
        );
    } else {
        let (j, e) = choose|j: int, e: int|
            {
                &&& 0 <= j < selected.len()
                &&& 0 <= e < selected[j]@.len()
                &&& j < selected.len() || (j == selected.len() && e < 0)
                &&& (#[trigger] selected[j]@[e]).id == members[p]
                &&& x == (OrderedNode { id: members[j], dist: selected[j]@[e].dist })
            };
        let back = selected[j]@[e];
        assert(selected[j]@.contains(back));
        lemma_candidate_by_vectors(
            select,
            knn,
            vectors,
            dim,
            levels,
            level,
            k,
            m_max,
            f,
            selected,
            j,
            back,
        );
        assert(members[j] < levels.len());
        assert(f(
            vector_at(vectors, dim, members[j] as int),
            vector_at(vectors, dim, members[p] as int),
        ) == f(
            vector_at(vectors, dim, members[p] as int),
            vector_at(vectors, dim, members[j] as int),
        ));
    }
}

/// What the selection keeps for a member, by the vectors.
proof fn lemma_candidate_by_vectors<Sel>(
    select: &Sel,
    knn: &ExactKnn,
    vectors: Seq<u16>,
    dim: int,
    levels: Seq<usize>,
    level: int,
    k: int,
    m_max: usize,
    f: spec_fn(Seq<u16>, Seq<u16>) -> Single,
    selected: Seq<Vec<OrderedNode>>,
    p: int,
    x: OrderedNode,
) where Sel: Fn(Vec<OrderedNode>, usize) -> Vec<OrderedNode>
    requires
        0 <= dim,
        0 <= level,
        levels.len() <= u32::MAX,
        vectors.len() == levels.len() * dim,
        forall|id: int| 0 <= id < levels.len() ==> #[trigger] levels[id] > 0,
        selection_is_sound(select),
        is_nearest_table(
            knn,
            level_vectors(vectors, dim, levels, level),
            members_of(levels, level, levels.len() as int).len() as int,
            dim,
            k,
            f,
        ),
        is_selection(
            select,
            members_of(levels, level, levels.len() as int),
            knn,
            m_max,
            selected,
        ),
        0 <= p < members_of(levels, level, levels.len() as int).len(),
        selected[p]@.contains(x),
    ensures
        is_edge_by_vectors(
            vectors,
            dim,
            levels,
            level,
            f,
            members_of(levels, level, levels.len() as int)[p] as int,
            x,
        ),
{
    let members = members_of(levels, level, levels.len() as int);
    let n = members.len() as int;
    let candidates = candidates_of(members, knn, p);
    lemma_members_of(levels, level, levels.len() as int);
    assert(selects(select, candidates, m_max, selected[p]@));
    lemma_selected(select, candidates, m_max, selected[p]@);
    assert(candidates.contains(x));
    let r = choose|r: int| 0 <= r < candidates.len() && candidates[r] == x;
    lemma_row_fits(p, n, k);
    let (at, distance) = neighbour_at(knn, p, r);
    assert(at == knn.ids_of(p)[r] && distance == knn.distances_of(p)[r]);
    assert(at < n && at != p);
    lemma_level_vector(vectors, dim, levels, level, p);
    lemma_level_vector(vectors, dim, levels, level, at as int);
    assert(members[at as int] != members[p]);
    assert(members[at as int] < levels.len());
}

/// What is listed of a node on a level: edges to other nodes of the level at one less
/// their score, no node twice, nearest first, and at most `m` of them, or twice as many
/// on the bottom level.
pub open spec fn is_list_by_vectors(
    vectors: Seq<u16>,
    dim: int,
    levels: Seq<usize>,
    level: int,
    m: int,
    f: spec_fn(Seq<u16>, Seq<u16>) -> Single,
    node: int,
    list: Seq<OrderedNode>,
) -> bool {
    &&& list.len() <= if level == 0 {
        2 * m
    } else {
        m
    }
    &&& forall|e: int|
        0 <= e < list.len() ==> is_edge_by_vectors(
            vectors,
            dim,
            levels,
            level,
            f,
            node,
            #[trigger] list[e],
        )
    &&& forall|e: int, later: int|
        0 <= e < later < list.len() ==> (#[trigger] list[e]).id != (#[trigger] list[later]).id
            && list[e].dist.total_rank() <= list[later].dist.total_rank()
}

/// Whether a node of a graph holds, for each of its levels, the ids of what is listed
/// there, and those of the bottom level once more.
pub open spec fn mirrors_its_lists(node: GraphBuilderNode) -> bool {
    &&& node.level_neighbors@.len() == node.level_neighbors_ranked@.len()
    &&& forall|level: int|
        0 <= level < node.level_neighbors@.len() ==> (
        #[trigger] node.level_neighbors@[level])@.len()
            == node.level_neighbors_ranked@[level]@.len()
    &&& forall|level: int, e: int|
        0 <= level < node.level_neighbors@.len() && 0 <= e < node.level_neighbors@[level]@.len()
            ==> #[trigger] node.level_neighbors@[level]@[e]
            == node.level_neighbors_ranked@[level]@[e].id
    &&& node.level_neighbors@.len() > 0 ==> node.bottom_neighbors@ == node.level_neighbors@[0]@
    &&& node.level_neighbors@.len() == 0 ==> node.bottom_neighbors@.len() == 0
}

/// A node made of its lists keeps them as they are, and mirrors them.
pub proof fn lemma_node_mirrors_its_lists(
    ranked: Vec<Vec<OrderedNode>>,
    node: GraphBuilderNode,
)
    requires
        call_ensures(into_builder_node, (ranked,), node),
    ensures
        node.level_neighbors_ranked == ranked,
        mirrors_its_lists(node),
{
}

/// Whether a graph is one of a partition whose nodes are on `levels`: a node for each
/// vector, each with a list for each of its levels and the mirrors of those, the counts
/// of the nodes on each level, and lists of edges that are what they are to be.
pub open spec fn is_graph_by_vectors(
    hnsw: &Hnsw,
    vectors: Seq<u16>,
    dim: int,
    levels: Seq<usize>,
    params: HnswBuildParams,
    f: spec_fn(Seq<u16>, Seq<u16>) -> Single,
) -> bool {
    &&& hnsw.params == params
    &&& hnsw.nodes@.len() == levels.len()
    &&& hnsw.level_count@.len() == params.max_level
    &&& forall|level: int|
        0 <= level < params.max_level ==> #[trigger] hnsw.level_count@[level] == nodes_on(
            levels,
            level,
        ).len()
    &&& forall|id: int|
        0 <= id < levels.len() ==> mirrors_its_lists(#[trigger] hnsw.nodes@[id])
            && hnsw.nodes@[id].level_neighbors_ranked@.len() == levels[id]
    &&& forall|id: int, level: int|
        0 <= id < levels.len() && 0 <= level < levels[id] ==> is_list_by_vectors(
            vectors,
            dim,
            levels,
            level,
            params.m as int,
            f,
            id,
            (#[trigger] hnsw.nodes@[id].level_neighbors_ranked@[level])@,
        )
}

/// How many nodes reach a level.
proof fn lemma_members_counted(levels: Seq<usize>, level: int)
    requires
        levels.len() <= u32::MAX,
        0 <= level,
    ensures
        nodes_on(levels, level).len() == members_of(
            levels,
            level,
            levels.len() as int,
        ).len(),
{
    let members = members_of(levels, level, levels.len() as int);
    let named = members.map_values(|id: u32| id as int);
    let all = nodes_on(levels, level);
    lemma_members_of(levels, level, levels.len() as int);
    assert(named.no_duplicates());
    named.unique_seq_to_set();
    assert forall|id: int| #[trigger] named.to_set().contains(id) <==> all.contains(id) by {
        if named.to_set().contains(id) {
            let p = choose|p: int| 0 <= p < named.len() && named[p] == id;
            assert(members[p] < levels.len());
        }
        if all.contains(id) {
            let p = lemma_is_member(levels, level, levels.len() as int, id);
            assert(named[p] == id);
        }
    }
    assert(named.to_set() =~= all);
}

/// A graph of a partition is what the vectors make it.
proof fn lemma_graph_by_vectors<P, Sel, Pack, Score>(
    select: &Sel,
    pack: &Pack,
    score: &Score,
    params: HnswBuildParams,
    vectors: Seq<u16>,
    dim: usize,
    levels: Seq<usize>,
    f: spec_fn(Seq<u16>, Seq<u16>) -> Single,
    hnsw: &Hnsw,
) where
    Sel: Fn(Vec<OrderedNode>, usize) -> Vec<OrderedNode>,
    Pack: Fn(&[u16], usize, usize) -> Option<(P, usize)>,
    Score: Fn(&P, &[u16], usize, usize, usize) -> Vec<Single>,

    requires
        2 * params.m <= usize::MAX,
        forall|id: int| 0 <= id < levels.len() ==> #[trigger] levels[id] > 0,
        selection_is_sound(select),
        kernel_always_packs::<P, Pack>(pack),
        kernel_scores_vectors(pack, score, f),
        is_commutative(f),
        is_graph(select, pack, score, params, vectors, dim, levels, hnsw),
    ensures
        is_graph_by_vectors(hnsw, vectors, dim as int, levels, params, f),
{
    let ranked = ranked_of(hnsw);
    assert forall|level: int|
        0 <= level < params.max_level implies #[trigger] hnsw.level_count@[level] == nodes_on(
        levels,
        level,
    ).len() by {
        lemma_members_counted(levels, level);
    }
    assert forall|id: int| 0 <= id < levels.len() implies mirrors_its_lists(
        #[trigger] hnsw.nodes@[id],
    ) && hnsw.nodes@[id].level_neighbors_ranked@.len() == levels[id] by {
        assert(ranked[id]@.len() == levels[id]);
        assert(is_node_of(hnsw.nodes@[id], hnsw.nodes@[id].level_neighbors_ranked@));
    }
    assert forall|id: int, level: int|
        0 <= id < levels.len() && 0 <= level < levels[id] implies is_list_by_vectors(
        vectors,
        dim as int,
        levels,
        level,
        params.m as int,
        f,
        id,
        (#[trigger] hnsw.nodes@[id].level_neighbors_ranked@[level])@,
    ) by {
        lemma_list_by_vectors(
            select,
            pack,
            score,
            params,
            vectors,
            dim,
            levels,
            f,
            hnsw,
            id,
            level,
        );
    }
}

/// [`lemma_graph_by_vectors`], of one node on one level.
proof fn lemma_list_by_vectors<P, Sel, Pack, Score>(
    select: &Sel,
    pack: &Pack,
    score: &Score,
    params: HnswBuildParams,
    vectors: Seq<u16>,
    dim: usize,
    levels: Seq<usize>,
    f: spec_fn(Seq<u16>, Seq<u16>) -> Single,
    hnsw: &Hnsw,
    id: int,
    level: int,
) where
    Sel: Fn(Vec<OrderedNode>, usize) -> Vec<OrderedNode>,
    Pack: Fn(&[u16], usize, usize) -> Option<(P, usize)>,
    Score: Fn(&P, &[u16], usize, usize, usize) -> Vec<Single>,

    requires
        2 * params.m <= usize::MAX,
        forall|id: int| 0 <= id < levels.len() ==> #[trigger] levels[id] > 0,
        selection_is_sound(select),
        kernel_always_packs::<P, Pack>(pack),
        kernel_scores_vectors(pack, score, f),
        is_commutative(f),
        is_graph(select, pack, score, params, vectors, dim, levels, hnsw),
        0 <= id < levels.len(),
        0 <= level < levels[id],
    ensures
        is_list_by_vectors(
            vectors,
            dim as int,
            levels,
            level,
            params.m as int,
            f,
            id,
            hnsw.nodes@[id].level_neighbors_ranked@[level]@,
        ),
{
    let members = members_of(levels, level, levels.len() as int);
    let ranked = ranked_of(hnsw);
    let list = hnsw.nodes@[id].level_neighbors_ranked@[level]@;
    let p = lemma_is_member(levels, level, levels.len() as int, id);
    lemma_members_of(levels, level, levels.len() as int);
    lemma_graph_is_sound(
        select,
        pack,
        score,
        params,
        vectors,
        dim,
        levels,
        hnsw,
        level,
        p,
    );
    assert(ranked[id] == hnsw.nodes@[id].level_neighbors_ranked);
    assert(is_level_filled(select, pack, score, params, vectors, dim, levels, level, ranked));
    assert(list == ranked[members[p] as int]@[level]@);
    if is_connected(levels, params.max_level as int, level) {
        let m_max = degree_cap(params.m as int, level) as usize;
        let (knn, rows) = choose|knn: ExactKnn, rows: Seq<Vec<OrderedNode>>|
            {
                &&& #[trigger] is_level_table(
                    pack,
                    score,
                    vectors,
                    dim,
                    levels,
                    level,
                    params.ef_construction,
                    Ok(knn),
                )
                &&& #[trigger] is_level_graph(select, members, &knn, m_max, rows)
                &&& forall|p: int|
                    0 <= p < members.len() ==> ranked[(#[trigger] members[p]) as int]@[level]
                        == rows[p]
            };
        lemma_level_table_by_vectors(
            pack,
            score,
            vectors,
            dim,
            levels,
            level,
            params.ef_construction,
            f,
            knn,
        );
        assert(list == rows[p]@);
        assert forall|e: int| 0 <= e < list.len() implies is_edge_by_vectors(
            vectors,
            dim as int,
            levels,
            level,
            f,
            id,
            #[trigger] list[e],
        ) by {
            assert(list.contains(list[e]));
            lemma_row_by_vectors(
                select,
                &knn,
                vectors,
                dim as int,
                levels,
                level,
                listed(params.ef_construction as int, members.len() as int),
                m_max,
                f,
                rows,
                p,
                list[e],
            );
        }
        lemma_row_in_order(select, members, &knn, m_max, rows, p);
    }
}

/// The edges of a node stand nearest first.
proof fn lemma_row_in_order<Sel>(
    select: &Sel,
    members: Seq<u32>,
    knn: &ExactKnn,
    m_max: usize,
    rows: Seq<Vec<OrderedNode>>,
    p: int,
) where Sel: Fn(Vec<OrderedNode>, usize) -> Vec<OrderedNode>
    requires
        is_level_graph(select, members, knn, m_max, rows),
        0 <= p < members.len(),
    ensures
        forall|e: int, later: int|
            0 <= e < later < rows[p]@.len() ==> (#[trigger] rows[p]@[e]).dist.total_rank() <= (
            #[trigger] rows[p]@[later]).dist.total_rank(),
{
    let selected = choose|selected: Seq<Vec<OrderedNode>>|
        {
            &&& #[trigger] is_selection(select, members, knn, m_max, selected)
            &&& is_closed(members, selected)
            &&& forall|i: int|
                0 <= i < rows.len() ==> is_merged_row(
                    select,
                    members,
                    selected,
                    m_max,
                    i,
                    (#[trigger] rows[i])@,
                )
        };
    assert(is_merged_row(select, members, selected, m_max, p, rows[p]@));
    assert forall|e: int, later: int| 0 <= e < later < rows[p]@.len() implies (
    #[trigger] rows[p]@[e]).dist.total_rank() <= (#[trigger] rows[p]@[later]).dist.total_rank() by {
        lemma_node_key(false, rows[p]@[e], rows[p]@[later]);
    }
}

/// The nodes that reach a level.
pub open spec fn nodes_on(levels: Seq<usize>, level: int) -> Set<int> {
    Set::new(|id: int| 0 <= id < levels.len() && levels[id] > level)
}

/// How many of the others on a level a node has for candidates: `ef` of them, or all.
pub open spec fn candidate_count(levels: Seq<usize>, level: int, ef: int) -> int {
    let others = nodes_on(levels, level).len() - 1;
    if ef < others {
        ef
    } else {
        others
    }
}

/// Whether `given` are the nearest others of `node` on a level by the vectors: each at
/// one less its score, no one twice, nearest first and by id where two score the same,
/// and none left out that scores higher than one of them.
pub open spec fn are_nearest(
    vectors: Seq<u16>,
    dim: int,
    levels: Seq<usize>,
    level: int,
    ef: int,
    f: spec_fn(Seq<u16>, Seq<u16>) -> Single,
    node: int,
    given: Seq<OrderedNode>,
) -> bool {
    &&& given.len() == candidate_count(levels, level, ef)
    &&& forall|r: int|
        0 <= r < given.len() ==> is_edge_by_vectors(
            vectors,
            dim,
            levels,
            level,
            f,
            node,
            #[trigger] given[r],
        )
    &&& forall|r: int, s: int|
        0 <= r < s < given.len() ==> {
            let (near, far) = (#[trigger] given[r], #[trigger] given[s]);
            let dot = f(vector_at(vectors, dim, node), vector_at(vectors, dim, near.id as int));
            let less = f(vector_at(vectors, dim, node), vector_at(vectors, dim, far.id as int));
            &&& near.id != far.id
            &&& !less.greater(dot)
            &&& less == dot ==> near.id < far.id
        }
    &&& forall|other: int, r: int|
        #![trigger vector_at(vectors, dim, other), given[r]]
        {
            &&& nodes_on(levels, level).contains(other)
            &&& other != node
            &&& 0 <= r < given.len()
            &&& forall|s: int| 0 <= s < given.len() ==> (#[trigger] given[s]).id != other
        } ==> !f(vector_at(vectors, dim, node), vector_at(vectors, dim, other)).greater(
            f(vector_at(vectors, dim, node), vector_at(vectors, dim, given[r].id as int)),
        )
}

/// The candidates of a member are its nearest others on the level.
proof fn lemma_candidates_are_nearest(
    knn: &ExactKnn,
    vectors: Seq<u16>,
    dim: int,
    levels: Seq<usize>,
    level: int,
    ef: int,
    f: spec_fn(Seq<u16>, Seq<u16>) -> Single,
    p: int,
)
    requires
        0 <= dim,
        0 <= level,
        0 <= ef,
        levels.len() <= u32::MAX,
        vectors.len() == levels.len() * dim,
        forall|id: int| 0 <= id < levels.len() ==> #[trigger] levels[id] > 0,
        is_nearest_table(
            knn,
            level_vectors(vectors, dim, levels, level),
            members_of(levels, level, levels.len() as int).len() as int,
            dim,
            listed(ef, members_of(levels, level, levels.len() as int).len() as int),
            f,
        ),
        0 <= p < members_of(levels, level, levels.len() as int).len(),
    ensures
        are_nearest(
            vectors,
            dim,
            levels,
            level,
            ef,
            f,
            members_of(levels, level, levels.len() as int)[p] as int,
            candidates_of(members_of(levels, level, levels.len() as int), knn, p),
        ),
{
    let members = members_of(levels, level, levels.len() as int);
    let own = level_vectors(vectors, dim, levels, level);
    let given = candidates_of(members, knn, p);
    let (n, k) = (members.len() as int, knn.k as int);
    let node = members[p] as int;
    lemma_members_of(levels, level, levels.len() as int);
    lemma_members_ascend(levels, level, levels.len() as int);
    lemma_members_counted(levels, level);
    lemma_row_fits(p, n, k);
    lemma_level_vector(vectors, dim, levels, level, p);
    assert forall|r: int| 0 <= r < k implies {
        let at = (#[trigger] neighbour_at(knn, p, r)).0 as int;
        &&& 0 <= at < n
        &&& at != p
        &&& given[r] == (OrderedNode { id: members[at], dist: neighbour_at(knn, p, r).1 })
        &&& vector_at(own, dim, at) == vector_at(vectors, dim, members[at] as int)
    } by {
        let at = neighbour_at(knn, p, r).0 as int;
        assert(at == knn.ids_of(p)[r]);
        lemma_level_vector(vectors, dim, levels, level, at);
    }
    assert forall|r: int| 0 <= r < given.len() implies is_edge_by_vectors(
        vectors,
        dim,
        levels,
        level,
        f,
        node,
        #[trigger] given[r],
    ) by {
        let at = neighbour_at(knn, p, r).0 as int;
        assert(members[at] < levels.len());
        assert(members[at] != members[p]);
    }
    assert forall|r: int, s: int| 0 <= r < s < given.len() implies {
        let (near, far) = (#[trigger] given[r], #[trigger] given[s]);
        let dot = f(vector_at(vectors, dim, node), vector_at(vectors, dim, near.id as int));
        let less = f(vector_at(vectors, dim, node), vector_at(vectors, dim, far.id as int));
        &&& near.id != far.id
        &&& !less.greater(dot)
        &&& less == dot ==> near.id < far.id
    } by {
        let (a, b) = (neighbour_at(knn, p, r).0 as int, neighbour_at(knn, p, s).0 as int);
        assert(members[a] != members[b]);
        if a < b {
            assert(members[a] < members[b]);
        }
    }
    assert forall|other: int, r: int|
        #![trigger vector_at(vectors, dim, other), given[r]]
        {
            &&& nodes_on(levels, level).contains(other)
            &&& other != node
            &&& 0 <= r < given.len()
            &&& forall|s: int| 0 <= s < given.len() ==> (#[trigger] given[s]).id != other
        } implies !f(vector_at(vectors, dim, node), vector_at(vectors, dim, other)).greater(
        f(vector_at(vectors, dim, node), vector_at(vectors, dim, given[r].id as int)),
    ) by {
        let q = lemma_is_member(levels, level, levels.len() as int, other);
        lemma_level_vector(vectors, dim, levels, level, q);
        assert forall|s: int| 0 <= s < k implies (#[trigger] neighbour_at(knn, p, s)).0
            != q by {
            assert(given[s].id != other);
        }
        assert(vector_at(own, dim, q) == vector_at(vectors, dim, other));
        let at = neighbour_at(knn, p, r).0 as int;
    }
}

/// Whether `chosen` is what the selection keeps, of at most `m_max`, for `node` of its
/// nearest others on a level.
pub open spec fn is_chosen_by_vectors<Sel>(
    select: &Sel,
    vectors: Seq<u16>,
    dim: int,
    levels: Seq<usize>,
    level: int,
    ef: int,
    m_max: int,
    f: spec_fn(Seq<u16>, Seq<u16>) -> Single,
    node: int,
    chosen: Seq<OrderedNode>,
) -> bool where Sel: Fn(Vec<OrderedNode>, usize) -> Vec<OrderedNode> {
    exists|given: Vec<OrderedNode>, m: usize, kept: Vec<OrderedNode>|
        {
            &&& #[trigger] call_ensures(*select, (given, m), kept)
            &&& m == m_max
            &&& kept@ == chosen
            &&& are_nearest(vectors, dim, levels, level, ef, f, node, given@)
        }
}

/// The edges of a node on a level: those it chose, and those of the nodes that chose it,
/// at the distance they did.
pub open spec fn edges_of(
    levels: Seq<usize>,
    level: int,
    chosen: Map<int, Seq<OrderedNode>>,
    node: int,
) -> spec_fn(OrderedNode) -> bool {
    |x: OrderedNode|
        chosen[node].contains(x) || (nodes_on(levels, level).contains(x.id as int)
            && chosen[x.id as int].contains((OrderedNode { id: node as u32, dist: x.dist })))
}

/// Whether a level of a graph is made of what each node chose of its nearest others,
/// `chosen`: a node keeps the edges chosen from either end, up to `m` of them, or twice
/// as many on the bottom level, and what the selection keeps where they are more.
pub open spec fn is_level_of_choices<Sel>(
    select: &Sel,
    hnsw: &Hnsw,
    vectors: Seq<u16>,
    dim: int,
    levels: Seq<usize>,
    level: int,
    f: spec_fn(Seq<u16>, Seq<u16>) -> Single,
    chosen: Map<int, Seq<OrderedNode>>,
) -> bool where Sel: Fn(Vec<OrderedNode>, usize) -> Vec<OrderedNode> {
    let m_max = if level == 0 {
        2 * hnsw.params.m
    } else {
        hnsw.params.m as int
    };
    forall|node: int| #[trigger]
        nodes_on(levels, level).contains(node) ==> {
            &&& is_chosen_by_vectors(
                select,
                vectors,
                dim,
                levels,
                level,
                hnsw.params.ef_construction as int,
                m_max,
                f,
                node,
                chosen[node],
            )
            &&& is_pruned_union(
                select,
                edges_of(levels, level, chosen, node),
                m_max as usize,
                hnsw.nodes@[node].level_neighbors_ranked@[level]@,
            )
        }
}

/// Whether a graph has edges on a level: on the bottom one, and on every one above that
/// two nodes or more reach.
pub open spec fn has_edges(levels: Seq<usize>, max_level: int, level: int) -> bool {
    0 <= level < max_level && (level == 0 || nodes_on(levels, level).len() >= 2)
}

/// Whether every level of a graph that has edges is made of what each node chose of its
/// nearest others, and every other level is bare.
pub open spec fn is_made_of_choices<Sel>(
    select: &Sel,
    hnsw: &Hnsw,
    vectors: Seq<u16>,
    dim: int,
    levels: Seq<usize>,
    f: spec_fn(Seq<u16>, Seq<u16>) -> Single,
) -> bool where Sel: Fn(Vec<OrderedNode>, usize) -> Vec<OrderedNode> {
    &&& forall|level: int|
        #[trigger] has_edges(levels, hnsw.params.max_level as int, level) ==> exists|
            chosen: Map<int, Seq<OrderedNode>>,
        | #[trigger]
            is_level_of_choices(select, hnsw, vectors, dim, levels, level, f, chosen)
    &&& forall|level: int, node: int|
        0 <= level && #[trigger] nodes_on(levels, level).contains(node) && !has_edges(
            levels,
            hnsw.params.max_level as int,
            level,
        ) ==> hnsw.nodes@[node].level_neighbors_ranked@[level]@.len() == 0
}

/// A level with edges is made of what each node chose of its nearest others.
proof fn lemma_level_of_choices<P, Sel, Pack, Score>(
    select: &Sel,
    pack: &Pack,
    score: &Score,
    params: HnswBuildParams,
    vectors: Seq<u16>,
    dim: usize,
    levels: Seq<usize>,
    f: spec_fn(Seq<u16>, Seq<u16>) -> Single,
    hnsw: &Hnsw,
    level: int,
) where
    Sel: Fn(Vec<OrderedNode>, usize) -> Vec<OrderedNode>,
    Pack: Fn(&[u16], usize, usize) -> Option<(P, usize)>,
    Score: Fn(&P, &[u16], usize, usize, usize) -> Vec<Single>,

    requires
        2 * params.m <= usize::MAX,
        levels.len() > 0,
        forall|id: int| 0 <= id < levels.len() ==> #[trigger] levels[id] > 0,
        kernel_always_packs::<P, Pack>(pack),
        kernel_scores_vectors(pack, score, f),
        is_commutative(f),
        is_graph(select, pack, score, params, vectors, dim, levels, hnsw),
        has_edges(levels, params.max_level as int, level),
    ensures
        exists|chosen: Map<int, Seq<OrderedNode>>| #[trigger]
            is_level_of_choices(select, hnsw, vectors, dim as int, levels, level, f, chosen),
{
    let len = levels.len() as int;
    let members = members_of(levels, level, len);
    let ranked = ranked_of(hnsw);
    let m_max = degree_cap(params.m as int, level) as usize;
    let ef = params.ef_construction as int;
    lemma_members_of(levels, level, len);
    lemma_members_counted(levels, level);
    if level == 0 {
        lemma_all_are_members(levels, len);
    }
    assert(is_level_filled(select, pack, score, params, vectors, dim, levels, level, ranked));
    let (knn, rows) = choose|knn: ExactKnn, rows: Seq<Vec<OrderedNode>>|
        {
            &&& #[trigger] is_level_table(
                pack,
                score,
                vectors,
                dim,
                levels,
                level,
                params.ef_construction,
                Ok(knn),
            )
            &&& #[trigger] is_level_graph(select, members, &knn, m_max, rows)
            &&& forall|p: int|
                0 <= p < members.len() ==> ranked[(#[trigger] members[p]) as int]@[level]
                    == rows[p]
        };
    lemma_level_table_by_vectors(
        pack,
        score,
        vectors,
        dim,
        levels,
        level,
        params.ef_construction,
        f,
        knn,
    );
    let selected = choose|selected: Seq<Vec<OrderedNode>>|
        {
            &&& #[trigger] is_selection(select, members, &knn, m_max, selected)
            &&& is_closed(members, selected)
            &&& forall|i: int|
                0 <= i < rows.len() ==> is_merged_row(
                    select,
                    members,
                    selected,
                    m_max,
                    i,
                    (#[trigger] rows[i])@,
                )
        };
    let place = |id: int| choose|p: int| 0 <= p < members.len() && #[trigger] members[p] == id;
    let chosen = Map::new(|id: int| true, |id: int| selected[place(id)]@);
    assert forall|p: int| 0 <= p < members.len() implies chosen[(
    #[trigger] members[p]) as int] == selected[p]@ by {
        assert(members[place(members[p] as int)] == members[p]);
    }
    assert forall|node: int| #[trigger] nodes_on(levels, level).contains(node) implies {
        &&& is_chosen_by_vectors(
            select,
            vectors,
            dim as int,
            levels,
            level,
            ef,
            m_max as int,
            f,
            node,
            chosen[node],
        )
        &&& is_pruned_union(
            select,
            edges_of(levels, level, chosen, node),
            m_max,
            hnsw.nodes@[node].level_neighbors_ranked@[level]@,
        )
    } by {
        let p = lemma_is_member(levels, level, len, node);
        let candidates = candidates_of(members, &knn, p);
        assert(ranked[members[p] as int]@[level] == rows[p]);
        assert(ranked[node] == hnsw.nodes@[node].level_neighbors_ranked);
        assert(chosen[members[p] as int] == selected[p]@);
        assert(selects(select, candidates, m_max, selected[p]@));
        let (c, o) = choose|c: Vec<OrderedNode>, o: Vec<OrderedNode>|
            c@ == candidates && o@ == selected[p]@ && #[trigger] call_ensures(
                *select,
                (c, m_max),
                o,
            );
        lemma_candidates_are_nearest(
            &knn,
            vectors,
            dim as int,
            levels,
            level,
            ef,
            f,
            p,
        );
        assert(call_ensures(*select, (c, m_max), o));
        assert(is_merged_row(select, members, selected, m_max, p, rows[p]@));
        lemma_merged_row(select, members, selected, m_max, p, rows[p]@);
        assert(edges_of(levels, level, chosen, node) =~= edges_at(members, selected, p)) by {
            lemma_same_edges(levels, level, members, selected, chosen, p);
        }
    }
    assert(is_level_of_choices(select, hnsw, vectors, dim as int, levels, level, f, chosen));
}

/// A graph of a partition is made of what each node chose of its nearest others.
proof fn lemma_made_of_choices<P, Sel, Pack, Score>(
    select: &Sel,
    pack: &Pack,
    score: &Score,
    params: HnswBuildParams,
    vectors: Seq<u16>,
    dim: usize,
    levels: Seq<usize>,
    f: spec_fn(Seq<u16>, Seq<u16>) -> Single,
    hnsw: &Hnsw,
) where
    Sel: Fn(Vec<OrderedNode>, usize) -> Vec<OrderedNode>,
    Pack: Fn(&[u16], usize, usize) -> Option<(P, usize)>,
    Score: Fn(&P, &[u16], usize, usize, usize) -> Vec<Single>,

    requires
        2 * params.m <= usize::MAX,
        levels.len() > 0,
        forall|id: int| 0 <= id < levels.len() ==> #[trigger] levels[id] > 0,
        kernel_always_packs::<P, Pack>(pack),
        kernel_scores_vectors(pack, score, f),
        is_commutative(f),
        is_graph(select, pack, score, params, vectors, dim, levels, hnsw),
    ensures
        is_made_of_choices(select, hnsw, vectors, dim as int, levels, f),
{
    assert forall|level: int|
        #[trigger] has_edges(levels, params.max_level as int, level) implies exists|
        chosen: Map<int, Seq<OrderedNode>>,
    | #[trigger]
        is_level_of_choices(select, hnsw, vectors, dim as int, levels, level, f, chosen) by {
        lemma_level_of_choices(
            select,
            pack,
            score,
            params,
            vectors,
            dim,
            levels,
            f,
            hnsw,
            level,
        );
    }
    let ranked = ranked_of(hnsw);
    assert forall|level: int, node: int|
        0 <= level && #[trigger] nodes_on(levels, level).contains(node) && !has_edges(
            levels,
            params.max_level as int,
            level,
        ) implies hnsw.nodes@[node].level_neighbors_ranked@[level]@.len() == 0 by {
        let members = members_of(levels, level, levels.len() as int);
        let p = lemma_is_member(levels, level, levels.len() as int, node);
        lemma_members_counted(levels, level);
        assert(is_level_filled(select, pack, score, params, vectors, dim, levels, level, ranked));
        assert(ranked[members[p] as int]@[level]@.len() == 0);
        assert(ranked[node] == hnsw.nodes@[node].level_neighbors_ranked);
    }
}

/// The edges of a node are the same by its id and by its place on the level.
proof fn lemma_same_edges(
    levels: Seq<usize>,
    level: int,
    members: Seq<u32>,
    selected: Seq<Vec<OrderedNode>>,
    chosen: Map<int, Seq<OrderedNode>>,
    p: int,
)
    requires
        levels.len() <= u32::MAX,
        0 <= level,
        members == members_of(levels, level, levels.len() as int),
        forall|q: int|
            0 <= q < members.len() ==> chosen[(#[trigger] members[q]) as int] == selected[q]@,
        0 <= p < members.len(),
    ensures
        forall|x: OrderedNode| #[trigger]
            edges_of(levels, level, chosen, members[p] as int)(x) == edges_at(
                members,
                selected,
                p,
            )(x),
{
    lemma_members_of(levels, level, levels.len() as int);
    assert forall|x: OrderedNode| #[trigger]
        edges_of(levels, level, chosen, members[p] as int)(x) == edges_at(
            members,
            selected,
            p,
        )(x) by {
        assert(chosen[members[p] as int] == selected[p]@);
        let back = OrderedNode { id: members[p], dist: x.dist };
        if nodes_on(levels, level).contains(x.id as int) {
            let q = lemma_is_member(levels, level, levels.len() as int, x.id as int);
            assert(members[q] == x.id);
            assert(chosen[members[q] as int] == selected[q]@);
        }
        if exists|j: int|
            0 <= j < members.len() && #[trigger] members[j] == x.id && selected[j]@.contains(
                back,
            ) {
            let j = choose|j: int|
                0 <= j < members.len() && #[trigger] members[j] == x.id && selected[j]@.contains(
                    back,
                );
            assert(members[j] < levels.len());
            assert(chosen[members[j] as int] == selected[j]@);
        }
    }
}

/// A graph that is built of a partition is what the vectors make it, level by level:
/// where the kernel packs what it is handed and its score of two vectors is `f` of them,
/// in either order, and the selection keeps some of what it is given, every edge leads
/// to another node that reaches the level, at one less the score of the vectors of
/// those two nodes.
pub proof fn lemma_built_by_vectors<P, Asg, Ent, Sel, Pack, Score>(
    storage: &Partition,
    params: &HnswBuildParams,
    kernel_available: bool,
    assign: &Asg,
    entry: &Ent,
    select: &Sel,
    pack: &Pack,
    score: &Score,
    f: spec_fn(Seq<u16>, Seq<u16>) -> Single,
    hnsw: Hnsw,
) where
    Asg: Fn(usize) -> Vec<usize>,
    Ent: Fn(&Vec<usize>) -> u32,
    Sel: Fn(Vec<OrderedNode>, usize) -> Vec<OrderedNode> + Sync,
    Pack: Fn(&[u16], usize, usize) -> Option<(P, usize)>,
    Score: Fn(&P, &[u16], usize, usize, usize) -> Vec<Single>,

    requires
        call_ensures(
            build_from_exact_knn::<P, Asg, Ent, Sel, Pack, Score>,
            (storage, params, kernel_available, assign, entry, select, pack, score),
            Ok(Some(hnsw)),
        ),
        2 * params.m <= usize::MAX,
        forall|levels: Vec<usize>| #[trigger]
            call_ensures(*assign, (storage.len,), levels) ==> forall|id: int|
                0 <= id < levels@.len() ==> #[trigger] levels@[id] > 0,
        selection_is_sound(select),
        kernel_always_packs::<P, Pack>(pack),
        kernel_scores_vectors(pack, score, f),
        is_commutative(f),
    ensures
        storage.vectors is Some,
        storage.vectors->Some_0.0@.len() == storage.len * storage.vectors->Some_0.1,
        exists|levels: Vec<usize>|
            {
                &&& #[trigger] call_ensures(*assign, (storage.len,), levels)
                &&& levels@.len() == storage.len
                &&& call_ensures(*entry, (&levels,), hnsw.entry_point)
                &&& is_graph_by_vectors(
                    &hnsw,
                    storage.vectors->Some_0.0@,
                    storage.vectors->Some_0.1 as int,
                    levels@,
                    *params,
                    f,
                )
                &&& is_made_of_choices(
                    select,
                    &hnsw,
                    storage.vectors->Some_0.0@,
                    storage.vectors->Some_0.1 as int,
                    levels@,
                    f,
                )
            },
{
    assert(is_construction(
        storage,
        *params,
        kernel_available,
        assign,
        entry,
        select,
        pack,
        score,
        Ok(Some(hnsw)),
    ));
    let (vectors, dim) = storage.vectors->0;
    let levels = choose|levels: Vec<usize>|
        {
            &&& #[trigger] call_ensures(*assign, (storage.len,), levels)
            &&& levels@.len() == storage.len
            &&& is_graph(select, pack, score, *params, vectors@, dim, levels@, &hnsw)
            &&& call_ensures(*entry, (&levels,), hnsw.entry_point)
        };
    lemma_graph_by_vectors(
        select,
        pack,
        score,
        *params,
        vectors@,
        dim,
        levels@,
        f,
        &hnsw,
    );
    lemma_made_of_choices(
        select,
        pack,
        score,
        *params,
        vectors@,
        dim,
        levels@,
        f,
        &hnsw,
    );
}

/// Whether a partition is one that the exact path covers: the path is asked for, the
/// graph has a level, the partition has a node and no more than the path may serve, the
/// distance is one less the dot product, and there is a kernel and vectors for it.
pub open spec fn is_covered(
    storage: &Partition,
    params: &HnswBuildParams,
    kernel_available: bool,
) -> bool {
    &&& params.use_exact_knn_construction
    &&& params.max_level >= 1
    &&& 1 <= storage.len
    &&& storage.len <= params.exact_knn_max_partition_size
    &&& storage.distance_type is Dot
    &&& kernel_available
    &&& storage.vectors is Some
}

/// A partition's vectors are taken exactly where the path covers it.
pub proof fn lemma_takes_what_is_covered<'a>(
    storage: &Partition<'a>,
    params: &HnswBuildParams,
    kernel_available: bool,
    r: Option<(&'a [u16], usize)>,
)
    requires
        call_ensures(eligible_vectors, (storage, params, kernel_available), r),
    ensures
        r is Some <==> is_covered(storage, params, kernel_available),
        r is Some ==> r == storage.vectors,
{
}

/// Where the kernel packs what it is handed and scores two vectors by `f` of them, and
/// the selection keeps some of what it is given, a partition is left to incremental
/// insertion exactly where the path does not cover it; one whose vectors are not as many
/// as they must be is refused; and one with a score for every two vectors gets its graph.
pub proof fn lemma_builds_what_is_covered<P, Asg, Ent, Sel, Pack, Score>(
    storage: &Partition,
    params: &HnswBuildParams,
    kernel_available: bool,
    assign: &Asg,
    entry: &Ent,
    select: &Sel,
    pack: &Pack,
    score: &Score,
    f: spec_fn(Seq<u16>, Seq<u16>) -> Single,
    r: Result<Option<Hnsw>, Error>,
) where
    Asg: Fn(usize) -> Vec<usize>,
    Ent: Fn(&Vec<usize>) -> u32,
    Sel: Fn(Vec<OrderedNode>, usize) -> Vec<OrderedNode> + Sync,
    Pack: Fn(&[u16], usize, usize) -> Option<(P, usize)>,
    Score: Fn(&P, &[u16], usize, usize, usize) -> Vec<Single>,

    requires
        call_ensures(
            build_from_exact_knn::<P, Asg, Ent, Sel, Pack, Score>,
            (storage, params, kernel_available, assign, entry, select, pack, score),
            r,
        ),
        forall|levels: Vec<usize>| #[trigger]
            call_ensures(*assign, (storage.len,), levels) ==> forall|id: int|
                0 <= id < levels@.len() ==> #[trigger] levels@[id] > 0,
        selection_is_sound(select),
        kernel_always_packs::<P, Pack>(pack),
        kernel_scores_vectors(pack, score, f),
        is_commutative(f),
    ensures
        (r is Ok && r->Ok_0 is None) <==> !is_covered(storage, params, kernel_available),
        r is Err ==> r->Err_0 is InvalidInput,
        is_covered(storage, params, kernel_available) ==> {
            let (vectors, dim) = storage.vectors->Some_0;
            &&& vectors@.len() != storage.len * dim || storage.len > u32::MAX ==> r is Err
            &&& {
                &&& vectors@.len() == storage.len * dim
                &&& storage.len <= u32::MAX
                &&& storage.len * storage.len <= usize::MAX
                &&& forall|a: int, b: int|
                    0 <= a < storage.len && 0 <= b < storage.len && a != b ==> is_score(
                        f(
                            #[trigger] vector_at(vectors@, dim as int, a),
                            #[trigger] vector_at(vectors@, dim as int, b),
                        ),
                    )
            } ==> r is Ok
        },
{
    if is_covered(storage, params, kernel_available) {
        let (vectors, dim) = storage.vectors->Some_0;
        assert(vectors.len() == vectors@.len());
        if r is Err || r->Ok_0 is None {
            let error = if r is Err {
                r->Err_0
            } else {
                choose|error: Error| #[trigger]
                    is_built(
                        assign,
                        entry,
                        select,
                        pack,
                        score,
                        *params,
                        vectors@,
                        dim,
                        storage.len,
                        Err(error),
                    ) && error is NotSupported
            };
            let levels = choose|levels: Vec<usize>|
                {
                    &&& #[trigger] call_ensures(*assign, (storage.len,), levels)
                    &&& levels@.len() == storage.len
                    &&& is_build_error(
                        select,
                        pack,
                        score,
                        *params,
                        vectors@,
                        dim,
                        levels@,
                        error,
                    )
                };
            lemma_build_error(
                select,
                pack,
                score,
                *params,
                vectors@,
                dim,
                levels@,
                f,
                error,
            );
        }
    }
}

/// What makes a build fail: the partition is none, or some two vectors have no score,
/// or a table does not fit.
proof fn lemma_build_error<P, Sel, Pack, Score>(
    select: &Sel,
    pack: &Pack,
    score: &Score,
    params: HnswBuildParams,
    vectors: Seq<u16>,
    dim: usize,
    levels: Seq<usize>,
    f: spec_fn(Seq<u16>, Seq<u16>) -> Single,
    error: Error,
) where
    Sel: Fn(Vec<OrderedNode>, usize) -> Vec<OrderedNode>,
    Pack: Fn(&[u16], usize, usize) -> Option<(P, usize)>,
    Score: Fn(&P, &[u16], usize, usize, usize) -> Vec<Single>,

    requires
        levels.len() > 0,
        vectors.len() <= usize::MAX,
        forall|id: int| 0 <= id < levels.len() ==> #[trigger] levels[id] > 0,
        selection_is_sound(select),
        kernel_always_packs::<P, Pack>(pack),
        kernel_scores_vectors(pack, score, f),
        is_commutative(f),
        is_build_error(select, pack, score, params, vectors, dim, levels, error),
    ensures
        error is InvalidInput,
        !{
            &&& vectors.len() == levels.len() * dim
            &&& levels.len() <= u32::MAX
            &&& levels.len() * levels.len() <= usize::MAX
            &&& forall|a: int, b: int|
                0 <= a < levels.len() && 0 <= b < levels.len() && a != b ==> is_score(
                    f(
                        #[trigger] vector_at(vectors, dim as int, a),
                        #[trigger] vector_at(vectors, dim as int, b),
                    ),
                )
        },
{
    let len = levels.len() as int;
    if vectors.len() == levels.len() * dim && levels.len() <= u32::MAX {
        let level = choose|level: int| #[trigger]
            is_level_error(
                select,
                pack,
                score,
                params,
                vectors,
                dim,
                levels,
                level,
                error,
            );
        let members = members_of(levels, level, len);
        let n = members.len() as int;
        let own = level_vectors(vectors, dim as int, levels, level);
        lemma_members_of(levels, level, len);
        if level == 0 {
            lemma_all_are_members(levels, len);
        }
        assert forall|knn: ExactKnn| #[trigger]
            is_level_table(
                pack,
                score,
                vectors,
                dim,
                levels,
                level,
                params.ef_construction,
                Ok(knn),
            ) implies !is_stray_error(
            select,
            members,
            &knn,
            degree_cap(params.m as int, level) as usize,
            error,
        ) by {
            lemma_level_table(
                pack,
                score,
                vectors,
                dim,
                levels,
                level,
                params.ef_construction,
                knn,
            );
            lemma_no_stray_neighbour(
                select,
                len,
                members,
                &knn,
                degree_cap(params.m as int, level) as usize,
                error,
            );
        }
        lemma_level_vector(vectors, dim as int, levels, level, 0);
        lemma_answer_by_vectors(
            own,
            n as usize,
            dim,
            params.ef_construction,
            true,
            pack,
            score,
            f,
            Err(error),
        );
        if levels.len() * levels.len() <= usize::MAX && forall|a: int, b: int|
            0 <= a < levels.len() && 0 <= b < levels.len() && a != b ==> is_score(
                f(
                    #[trigger] vector_at(vectors, dim as int, a),
                    #[trigger] vector_at(vectors, dim as int, b),
                ),
            ) {
            let count = listed(params.ef_construction as int, n);
            assert(n * count <= len * len) by (nonlinear_arith)
                requires
                    0 <= count <= n <= len,
            ;
            assert forall|node: int| 0 <= node < n implies (#[trigger] possible_neighbours(
                own,
                n,
                dim as int,
                f,
                node,
            )).len() >= count by {
                let others = possible_neighbours(own, n, dim as int, f, node);
                assert forall|q: int| 0 <= q < n && q != node implies #[trigger] others.contains(
                    q,
                ) by {
                    lemma_level_vector(vectors, dim as int, levels, level, node);
                    lemma_level_vector(vectors, dim as int, levels, level, q);
                    assert(members[node] < len && members[q] < len);
                    assert(members[node] != members[q]);
                }
                let all = vstd::set_lib::set_int_range(0, n);
                vstd::set_lib::lemma_int_range(0, n);
                assert(others =~= all.remove(node));
            }
        }
    }
}

/// A partition of two vectors or more whose kernel declines whatever it is handed is left
/// to incremental insertion, and is no error.
pub proof fn lemma_left_where_the_kernel_declines<P, Asg, Ent, Sel, Pack, Score>(
    storage: &Partition,
    params: &HnswBuildParams,
    kernel_available: bool,
    assign: &Asg,
    entry: &Ent,
    select: &Sel,
    pack: &Pack,
    score: &Score,
    r: Result<Option<Hnsw>, Error>,
) where
    Asg: Fn(usize) -> Vec<usize>,
    Ent: Fn(&Vec<usize>) -> u32,
    Sel: Fn(Vec<OrderedNode>, usize) -> Vec<OrderedNode> + Sync,
    Pack: Fn(&[u16], usize, usize) -> Option<(P, usize)>,
    Score: Fn(&P, &[u16], usize, usize, usize) -> Vec<Single>,

    requires
        call_ensures(
            build_from_exact_knn::<P, Asg, Ent, Sel, Pack, Score>,
            (storage, params, kernel_available, assign, entry, select, pack, score),
            r,
        ),
        forall|levels: Vec<usize>| #[trigger]
            call_ensures(*assign, (storage.len,), levels) ==> forall|id: int|
                0 <= id < levels@.len() ==> #[trigger] levels@[id] > 0,
        forall|c: &[u16], len: usize, dim: usize, packed: P, stride: usize| !#[trigger]
            call_ensures(*pack, (c, len, dim), Some((packed, stride))),
        params.ef_construction >= 1,
        2 <= storage.len <= u32::MAX,
        storage.vectors is Some ==> storage.vectors->Some_0.0@.len() == storage.len
            * storage.vectors->Some_0.1,
    ensures
        r is Ok,
        r->Ok_0 is None,
{
    if is_covered(storage, params, kernel_available) {
        let (vectors, dim) = storage.vectors->Some_0;
        assert(vectors.len() == vectors@.len());
        if r is Ok && r->Ok_0 is Some {
            let hnsw = r->Ok_0->Some_0;
            let levels = choose|levels: Vec<usize>|
                {
                    &&& #[trigger] call_ensures(*assign, (storage.len,), levels)
                    &&& levels@.len() == storage.len
                    &&& is_graph(select, pack, score, *params, vectors@, dim, levels@, &hnsw)
                };
            lemma_all_are_members(levels@, storage.len as int);
            assert(is_level_filled(
                select,
                pack,
                score,
                *params,
                vectors@,
                dim,
                levels@,
                0,
                ranked_of(&hnsw),
            ));
            lemma_no_table(
                pack,
                score,
                vectors@,
                dim,
                levels@,
                0,
                params.ef_construction,
            );
        } else if r is Err {
            let error = r->Err_0;
            let levels = choose|levels: Vec<usize>|
                {
                    &&& #[trigger] call_ensures(*assign, (storage.len,), levels)
                    &&& levels@.len() == storage.len
                    &&& is_build_error(
                        select,
                        pack,
                        score,
                        *params,
                        vectors@,
                        dim,
                        levels@,
                        error,
                    )
                };
            let level = choose|level: int| #[trigger]
                is_level_error(
                    select,
                    pack,
                    score,
                    *params,
                    vectors@,
                    dim,
                    levels@,
                    level,
                    error,
                );
            if level == 0 {
                lemma_all_are_members(levels@, storage.len as int);
            }
            lemma_no_table(
                pack,
                score,
                vectors@,
                dim,
                levels@,
                level,
                params.ef_construction,
            );
        }
    }
}

/// Where the kernel declines whatever it is handed, a level of two nodes or more gets no
/// table, and what is reported is that.
proof fn lemma_no_table<P, Pack, Score>(
    pack: &Pack,
    score: &Score,
    vectors: Seq<u16>,
    dim: usize,
    levels: Seq<usize>,
    level: int,
    ef_construction: usize,
) where
    Pack: Fn(&[u16], usize, usize) -> Option<(P, usize)>,
    Score: Fn(&P, &[u16], usize, usize, usize) -> Vec<Single>,

    requires
        forall|c: &[u16], len: usize, dim: usize, packed: P, stride: usize| !#[trigger]
            call_ensures(*pack, (c, len, dim), Some((packed, stride))),
        levels.len() <= u32::MAX,
        members_of(levels, level, levels.len() as int).len() >= 2,
        ef_construction >= 1,
    ensures
        forall|r: Result<ExactKnn, Error>| #[trigger]
            is_level_table(pack, score, vectors, dim, levels, level, ef_construction, r)
                ==> r is Err && r->Err_0 is NotSupported,
{
    let n = members_of(levels, level, levels.len() as int).len() as int;
    let own = level_vectors(vectors, dim as int, levels, level);
    lemma_members_of(levels, level, levels.len() as int);
    assert(!is_packed::<P, Pack>(pack, own, n, dim, 0));
}

} // verus!
