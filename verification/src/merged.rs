//! What becomes of the edges that nodes choose on a level.
use crate::error::Error;
use crate::exact_build::{
    candidates_of, is_closed, is_edge, is_first_stray, is_kept, is_merged_row, is_pool,
    is_reverse, is_selection, leads_inside, level_edges, merge_bidirectional, pool_holds, selects,
    stray_neighbour,
};
use crate::graph::{in_order, node_key, sorted_nodes, OrderedNode};
use crate::knn::{lemma_row_fits, ExactKnn};
use crate::text::decimal;
use vstd::prelude::*;

verus! {

/// Whether neighbours stand nearest first, and by id where two are equally near.
pub open spec fn stands_nearest_first(row: Seq<OrderedNode>) -> bool {
    forall|p: int, q: int|
        0 <= p < q < row.len() ==> {
            let (a, b) = (#[trigger] row[p], #[trigger] row[q]);
            &&& a.dist.total_rank() <= b.dist.total_rank()
            &&& a.dist.total_rank() == b.dist.total_rank() ==> a.id <= b.id
        }
}

/// Whether neighbours stand by id, and nearest first where two have the same.
pub open spec fn stands_by_id(row: Seq<OrderedNode>) -> bool {
    forall|p: int, q: int|
        0 <= p < q < row.len() ==> {
            let (a, b) = (#[trigger] row[p], #[trigger] row[q]);
            &&& a.id <= b.id
            &&& a.id == b.id ==> a.dist.total_rank() <= b.dist.total_rank()
        }
}

proof fn lemma_order(by_id: bool, row: Seq<OrderedNode>)
    requires
        in_order(by_id, row),
    ensures
        by_id ==> stands_by_id(row),
        !by_id ==> stands_nearest_first(row),
{
    reveal(node_key);
    assert forall|p: int, q: int| 0 <= p < q < row.len() implies {
        let (a, b) = (#[trigger] row[p], #[trigger] row[q]);
        &&& by_id ==> a.id <= b.id
        &&& by_id && a.id == b.id ==> a.dist.total_rank() <= b.dist.total_rank()
        &&& !by_id ==> a.dist.total_rank() <= b.dist.total_rank()
        &&& !by_id && a.dist.total_rank() == b.dist.total_rank() ==> a.id <= b.id
    } by {
        assert(node_key(by_id, row[p]) <= node_key(by_id, row[q]));
    }
}

/// Sorting neighbours keeps each of them, and puts them by id or nearest first.
pub proof fn lemma_sorts_as_asked(nodes: &Vec<OrderedNode>, by_id: bool, out: Vec<OrderedNode>)
    requires
        call_ensures(sorted_nodes, (nodes, by_id), out),
    ensures
        out@.to_multiset() == nodes@.to_multiset(),
        by_id ==> stands_by_id(out@),
        !by_id ==> stands_nearest_first(out@),
{
    lemma_order(by_id, out@);
}

/// Whether `union` holds each neighbour that some edge leads to once, by id, at the
/// least distance that one of its edges has.
pub open spec fn is_union(linked: spec_fn(OrderedNode) -> bool, union: Seq<OrderedNode>) -> bool {
    &&& forall|p: int, q: int|
        0 <= p < q < union.len() ==> (#[trigger] union[p]).id < (#[trigger] union[q]).id
    &&& forall|p: int| 0 <= p < union.len() ==> linked(#[trigger] union[p])
    &&& forall|x: OrderedNode| #[trigger] linked(x) ==> exists|p: int|
        0 <= p < union.len() && (#[trigger] union[p]).id == x.id && union[p].dist.total_rank()
            <= x.dist.total_rank()
}

/// Whether `row` is what a node keeps of its edges: each neighbour once at its least
/// distance, or what the selection keeps of those where they are more than `m_max`;
/// nearest first.
pub open spec fn is_pruned_union<Sel>(
    select: &Sel,
    linked: spec_fn(OrderedNode) -> bool,
    m_max: usize,
    row: Seq<OrderedNode>,
) -> bool where Sel: Fn(Vec<OrderedNode>, usize) -> Vec<OrderedNode> {
    stands_nearest_first(row) && exists|union: Seq<OrderedNode>| #[trigger]
        is_union(linked, union) && if union.len() <= m_max {
            row.to_multiset() == union.to_multiset()
        } else {
            exists|given: Vec<OrderedNode>, kept: Vec<OrderedNode>| #[trigger]
                call_ensures(*select, (given, m_max), kept) && given@ == union
                    && row.to_multiset() == kept@.to_multiset()
        }
}

/// The edges of the node at place `i`: those it chose, and those of the nodes that
/// chose it, at the distance they did.
pub open spec fn edges_at(
    members: Seq<u32>,
    chosen: Seq<Vec<OrderedNode>>,
    i: int,
) -> spec_fn(OrderedNode) -> bool {
    |x: OrderedNode|
        chosen[i]@.contains(x) || exists|j: int|
            0 <= j < members.len() && #[trigger] members[j] == x.id && chosen[j]@.contains(
                (OrderedNode { id: members[i], dist: x.dist }),
            )
}

/// The edges from either end, by what each node chose.
proof fn lemma_edges_at(
    members: Seq<u32>,
    chosen: Seq<Vec<OrderedNode>>,
    i: int,
    x: OrderedNode,
)
    requires
        chosen.len() == members.len(),
        0 <= i < members.len(),
    ensures
        is_edge(members, chosen, i, x) <==> edges_at(members, chosen, i)(x),
{
    if !chosen[i]@.contains(x) {
        if is_edge(members, chosen, i, x) {
            let (j, e) = choose|j: int, e: int|
                {
                    &&& 0 <= j < chosen.len()
                    &&& 0 <= e < chosen[j]@.len()
                    &&& j < chosen.len() || (j == chosen.len() && e < 0)
                    &&& (#[trigger] chosen[j]@[e]).id == members[i]
                    &&& x == (OrderedNode { id: members[j], dist: chosen[j]@[e].dist })
                };
            assert(chosen[j]@[e] == (OrderedNode { id: members[i], dist: x.dist }));
            assert(members[j] == x.id);
        }
        if edges_at(members, chosen, i)(x) {
            let back = OrderedNode { id: members[i], dist: x.dist };
            let j = choose|j: int|
                0 <= j < members.len() && #[trigger] members[j] == x.id && chosen[j]@.contains(
                    back,
                );
            let e = choose|e: int| 0 <= e < chosen[j]@.len() && chosen[j]@[e] == back;
            assert(chosen[j]@[e].id == members[i]);
            assert(is_reverse(members, chosen, i, x, chosen.len() as int, 0));
        }
    }
}

/// A merged row is what a node keeps of its edges.
pub proof fn lemma_merged_row<Sel>(
    select: &Sel,
    members: Seq<u32>,
    chosen: Seq<Vec<OrderedNode>>,
    m_max: usize,
    i: int,
    row: Seq<OrderedNode>,
) where Sel: Fn(Vec<OrderedNode>, usize) -> Vec<OrderedNode>
    requires
        chosen.len() == members.len(),
        0 <= i < members.len(),
        is_merged_row(select, members, chosen, m_max, i, row),
    ensures
        is_pruned_union(select, edges_at(members, chosen, i), m_max, row),
{
    reveal(is_pool);
    let linked = edges_at(members, chosen, i);
    let pool = choose|pool: Seq<OrderedNode>|
        #[trigger] is_pool(members, chosen, i, pool) && is_kept(select, pool, m_max, row);
    lemma_order(false, row);
    assert(is_union(linked, pool)) by {
        assert forall|p: int| 0 <= p < pool.len() implies linked(#[trigger] pool[p]) by {
            assert(is_edge(members, chosen, i, pool[p]));
            lemma_edges_at(members, chosen, i, pool[p]);
        }
        assert forall|x: OrderedNode| #[trigger] linked(x) implies exists|p: int|
            0 <= p < pool.len() && (#[trigger] pool[p]).id == x.id && pool[p].dist.total_rank()
                <= x.dist.total_rank() by {
            lemma_edges_at(members, chosen, i, x);
            assert(pool_holds(pool, x));
        }
    }
    if pool.len() > m_max {
        let kept = choose|kept: Seq<OrderedNode>|
            #[trigger] selects(select, pool, m_max, kept) && row.to_multiset()
                == kept.to_multiset();
        let (c, o) = choose|c: Vec<OrderedNode>, o: Vec<OrderedNode>|
            c@ == pool && o@ == kept && #[trigger] call_ensures(*select, (c, m_max), o);
        assert(call_ensures(*select, (c, m_max), o));
    }
}

/// Merging answers where every edge leads to a node of the level, and gives each node
/// what it keeps of the edges chosen from either end; otherwise it reports the first edge
/// that leads elsewhere.
pub proof fn lemma_merges_from_either_end<Sel>(
    len: usize,
    members: &Vec<u32>,
    chosen: Vec<Vec<OrderedNode>>,
    m_max: usize,
    select: &Sel,
    r: Result<Vec<Vec<OrderedNode>>, Error>,
) where Sel: Fn(Vec<OrderedNode>, usize) -> Vec<OrderedNode> + Sync
    requires
        call_ensures(merge_bidirectional::<Sel>, (len, members, chosen, m_max, select), r),
        chosen@.len() == members@.len(),
    ensures
        r is Ok <==> forall|i: int, e: int|
            0 <= i < members@.len() && 0 <= e < chosen@[i]@.len() ==> members@.contains(
                (#[trigger] chosen@[i]@[e]).id,
            ),
        r matches Ok(rows) ==> rows@.len() == members@.len() && forall|i: int|
            0 <= i < members@.len() ==> is_pruned_union(
                select,
                edges_at(members@, chosen@, i),
                m_max,
                (#[trigger] rows@[i])@,
            ),
        r is Err ==> r->Err_0 is Internal && exists|i: int, e: int|
            {
                &&& 0 <= i < members@.len()
                &&& 0 <= e < chosen@[i]@.len()
                &&& !members@.contains((#[trigger] chosen@[i]@[e]).id)
                &&& forall|j: int, d: int|
                    0 <= j < members@.len() && 0 <= d < chosen@[j]@.len() && (j < i || (j == i && d
                        < e)) ==> members@.contains((#[trigger] chosen@[j]@[d]).id)
                &&& r->Err_0.text() == "HNSW exact-knn construction picked node "@ + decimal(
                    chosen@[i]@[e].id as nat,
                ) + " as a neighbour of node "@ + decimal(members@[i] as nat)
                    + ", but it is not on this level"@
            },
{
    if r is Err {
        let (i, e) = choose|i: int, e: int| #[trigger]
            is_first_stray(members@, chosen@, i, e) && r->Err_0.text() == stray_neighbour(
                chosen@[i]@[e].id as nat,
                members@[i] as nat,
            );
        assert(!members@.contains(chosen@[i]@[e].id));
        assert forall|j: int, d: int|
            0 <= j < members@.len() && 0 <= d < chosen@[j]@.len() && (j < i || (j == i && d
                < e)) implies members@.contains((#[trigger] chosen@[j]@[d]).id) by {
            assert(leads_inside(members@, chosen@, j, d));
        }
    }
    if is_closed(members@, chosen@) {
        assert forall|i: int, e: int|
            0 <= i < members@.len() && 0 <= e < chosen@[i]@.len() implies members@.contains(
            (#[trigger] chosen@[i]@[e]).id,
        ) by {
            assert(leads_inside(members@, chosen@, i, e));
        }
    }
    if let Ok(rows) = r {
        assert forall|i: int| 0 <= i < members@.len() implies is_pruned_union(
            select,
            edges_at(members@, chosen@, i),
            m_max,
            (#[trigger] rows@[i])@,
        ) by {
            lemma_merged_row(select, members@, chosen@, m_max, i, rows@[i]@);
        }
    }
}

/// Whether `chosen` is what the selection keeps, of at most `m_max`, for the node at
/// place `i` of the neighbours that its row of the table lists.
pub open spec fn is_chosen_from_row<Sel>(
    select: &Sel,
    members: Seq<u32>,
    knn: &ExactKnn,
    m_max: usize,
    i: int,
    chosen: Seq<OrderedNode>,
) -> bool where Sel: Fn(Vec<OrderedNode>, usize) -> Vec<OrderedNode> {
    exists|given: Vec<OrderedNode>, kept: Vec<OrderedNode>|
        {
            &&& #[trigger] call_ensures(*select, (given, m_max), kept)
            &&& kept@ == chosen
            &&& given@.len() == knn.k
            &&& forall|c: int|
                0 <= c < knn.k ==> #[trigger] given@[c] == (OrderedNode {
                    id: members[knn.ids@[i * knn.k + c] as int],
                    dist: knn.distances@[i * knn.k + c],
                })
        }
}

/// The edges of a level are what its nodes keep of those that the selection chose
/// from the rows of the table, from either end.
pub proof fn lemma_chooses_from_the_table<Sel>(
    len: usize,
    members: &Vec<u32>,
    knn: &ExactKnn,
    m_max: usize,
    select: &Sel,
    rows: Vec<Vec<OrderedNode>>,
) where Sel: Fn(Vec<OrderedNode>, usize) -> Vec<OrderedNode> + Sync
    requires
        call_ensures(level_edges::<Sel>, (len, members, knn, m_max, select), Ok(rows)),
        knn.num_nodes == members@.len(),
        knn.ids@.len() == knn.num_nodes * knn.k,
        knn.distances@.len() == knn.num_nodes * knn.k,
    ensures
        rows@.len() == members@.len(),
        exists|chosen: Seq<Vec<OrderedNode>>|
            #![trigger edges_at(members@, chosen, 0)]
            {
                &&& chosen.len() == members@.len()
                &&& forall|i: int|
                    0 <= i < members@.len() ==> is_chosen_from_row(
                        select,
                        members@,
                        knn,
                        m_max,
                        i,
                        (#[trigger] chosen[i])@,
                    )
                &&& forall|i: int|
                    0 <= i < members@.len() ==> is_pruned_union(
                        select,
                        edges_at(members@, chosen, i),
                        m_max,
                        (#[trigger] rows@[i])@,
                    )
            },
{
    let selected = choose|selected: Seq<Vec<OrderedNode>>|
        {
            &&& #[trigger] is_selection(select, members@, knn, m_max, selected)
            &&& is_closed(members@, selected)
            &&& forall|i: int|
                0 <= i < rows@.len() ==> is_merged_row(
                    select,
                    members@,
                    selected,
                    m_max,
                    i,
                    (#[trigger] rows@[i])@,
                )
        };
    assert forall|i: int| 0 <= i < members@.len() implies is_chosen_from_row(
        select,
        members@,
        knn,
        m_max,
        i,
        (#[trigger] selected[i])@,
    ) by {
        let candidates = candidates_of(members@, knn, i);
        lemma_row_fits(i, knn.num_nodes as int, knn.k as int);
        assert(selects(select, candidates, m_max, selected[i]@));
        let (c, o) = choose|c: Vec<OrderedNode>, o: Vec<OrderedNode>|
            c@ == candidates && o@ == selected[i]@ && #[trigger] call_ensures(
                *select,
                (c, m_max),
                o,
            );
        assert(call_ensures(*select, (c, m_max), o));
    }
    assert forall|i: int| 0 <= i < members@.len() implies is_pruned_union(
        select,
        edges_at(members@, selected, i),
        m_max,
        (#[trigger] rows@[i])@,
    ) by {
        lemma_merged_row(select, members@, selected, m_max, i, rows@[i]@);
    }
    let first = edges_at(members@, selected, 0);
}

} // verus!
