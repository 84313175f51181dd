//! Builds a layered proximity graph from exact neighbour tables instead of
//! inserting the nodes one at a time.
//!
//! Incremental insertion pays a beam search per node to find that node's
//! candidate neighbours. This path instead computes every node's exact top
//! `ef_construction` neighbours once for the whole partition and selects each
//! node's edges straight from that table.
//!
//! **Every level gets its own exact table.** Level `l` only connects the nodes
//! assigned to it, so the partition-wide neighbours are useless there. Each upper
//! level gathers its members' vectors and gets a table over just those.
//!
//! **Back edges are added unconditionally.** `i -> j` and `j -> i` are unioned
//! outright and any node pushed past its degree cap is re-pruned.
//!
//! The scoring kernel, the neighbour selection, the level assignment and the
//! choice of the entry point are the caller's.
use crate::distance::DistanceType;
use crate::error::Error;
use crate::exact_knn::{
    exact_knn_topk, is_argument_error, is_partition, is_score_table, is_table_or_refusal,
    kernel_ready, lemma_lists_others, listed,
};
use crate::graph::{
    ids_of, in_order, lemma_node_key, node_key, sorted_nodes, GraphBuilderNode, Hnsw,
    HnswBuildParams, OrderedNode,
};
use crate::knn::{lemma_row_fits, lemma_slot_owner, ExactKnn};
use crate::parallel::par_map;
use crate::single::Single;
use crate::text::{append_decimal, decimal};
use crate::top_k::Scores;
use std::sync::Arc;
use vstd::prelude::*;
use vstd::string::StringExecFns;

verus! {

/// Placeholder in the node-to-level-index map for a node that is not on the
/// level.
pub const NOT_ON_LEVEL: u32 = u32::MAX;

/// Whether the selection can be called on neighbours among `len` nodes.
pub open spec fn selector_ready<Sel>(select: &Sel, len: int) -> bool where
    Sel: Fn(Vec<OrderedNode>, usize) -> Vec<OrderedNode>,
 {
    forall|candidates: Vec<OrderedNode>, m: usize|
        (forall|p: int| 0 <= p < candidates@.len() ==> (#[trigger] candidates@[p]).id < len)
            ==> #[trigger] call_requires(*select, (candidates, m))
}

/// Whether the selection can keep `kept` of `candidates`, at most `m` of them.
pub open spec fn selects<Sel>(
    select: &Sel,
    candidates: Seq<OrderedNode>,
    m: usize,
    kept: Seq<OrderedNode>,
) -> bool where Sel: Fn(Vec<OrderedNode>, usize) -> Vec<OrderedNode> {
    exists|c: Vec<OrderedNode>, o: Vec<OrderedNode>|
        c@ == candidates && o@ == kept && #[trigger] call_ensures(*select, (c, m), o)
}

/// The distinct nodes of one level, all below `len`.
pub open spec fn is_level(members: Seq<u32>, len: int) -> bool {
    &&& members.no_duplicates()
    &&& members.len() <= u32::MAX
    &&& forall|p: int| 0 <= p < members.len() ==> #[trigger] members[p] < len
}

/// Whether `x` is the reverse of an edge to `members[i]`, among the edges of the
/// first `rows` nodes and the first `edges` of the next one.
pub open spec fn is_reverse(
    members: Seq<u32>,
    adjacency: Seq<Vec<OrderedNode>>,
    i: int,
    x: OrderedNode,
    rows: int,
    edges: int,
) -> bool {
    exists|j: int, e: int|
        {
            &&& 0 <= j < adjacency.len()
            &&& 0 <= e < adjacency[j]@.len()
            &&& j < rows || (j == rows && e < edges)
            &&& (#[trigger] adjacency[j]@[e]).id == members[i]
            &&& x == (OrderedNode { id: members[j], dist: adjacency[j]@[e].dist })
        }
}

/// Whether `x` is an edge of `members[i]`, chosen from either end.
pub open spec fn is_edge(
    members: Seq<u32>,
    adjacency: Seq<Vec<OrderedNode>>,
    i: int,
    x: OrderedNode,
) -> bool {
    adjacency[i]@.contains(x) || is_reverse(members, adjacency, i, x, adjacency.len() as int, 0)
}

/// Whether `pool` is the union of the edges of `members[i]` from either end: each
/// neighbour once, at the least distance it is an edge with, by ascending id.
#[verifier::opaque]
pub open spec fn is_pool(
    members: Seq<u32>,
    adjacency: Seq<Vec<OrderedNode>>,
    i: int,
    pool: Seq<OrderedNode>,
) -> bool {
    &&& forall|p: int, q: int|
        0 <= p < q < pool.len() ==> (#[trigger] pool[p]).id < (#[trigger] pool[q]).id
    &&& forall|p: int|
        0 <= p < pool.len() ==> is_edge(members, adjacency, i, #[trigger] pool[p])
    &&& forall|x: OrderedNode| #[trigger]
        is_edge(members, adjacency, i, x) ==> pool_holds(pool, x)
}

/// The entries of a pool are edges, by strictly ascending id.
pub proof fn lemma_pool_entries(
    members: Seq<u32>,
    adjacency: Seq<Vec<OrderedNode>>,
    i: int,
    pool: Seq<OrderedNode>,
)
    requires
        is_pool(members, adjacency, i, pool),
    ensures
        forall|p: int, q: int|
            0 <= p < q < pool.len() ==> (#[trigger] pool[p]).id < (#[trigger] pool[q]).id,
        forall|p: int|
            0 <= p < pool.len() ==> is_edge(members, adjacency, i, #[trigger] pool[p]),
{
    reveal(is_pool);
}

/// Where a pool holds the neighbour that an edge leads to.
pub proof fn lemma_pool_entry(
    members: Seq<u32>,
    adjacency: Seq<Vec<OrderedNode>>,
    i: int,
    pool: Seq<OrderedNode>,
    x: OrderedNode,
) -> (p: int)
    requires
        is_pool(members, adjacency, i, pool),
        is_edge(members, adjacency, i, x),
    ensures
        0 <= p < pool.len(),
        pool[p].id == x.id,
        pool[p].dist.total_rank() <= x.dist.total_rank(),
{
    assert(pool_holds(pool, x)) by {
        reveal(is_pool);
    }
    choose|p: int|
        0 <= p < pool.len() && (#[trigger] pool[p]).id == x.id && pool[p].dist.total_rank()
            <= x.dist.total_rank()
}

/// Whether `pool` holds the neighbour of `x` at its distance or a lesser one.
pub open spec fn pool_holds(pool: Seq<OrderedNode>, x: OrderedNode) -> bool {
    exists|p: int|
        0 <= p < pool.len() && (#[trigger] pool[p]).id == x.id && pool[p].dist.total_rank()
            <= x.dist.total_rank()
}

/// Whether `row` is what a node keeps of the edges in `pool`: all of them, or
/// what the selection keeps where they are more than `m_max`; nearest first.
pub open spec fn is_kept<Sel>(
    select: &Sel,
    pool: Seq<OrderedNode>,
    m_max: usize,
    row: Seq<OrderedNode>,
) -> bool where Sel: Fn(Vec<OrderedNode>, usize) -> Vec<OrderedNode> {
    &&& in_order(false, row)
    &&& if pool.len() > m_max {
        exists|kept: Seq<OrderedNode>|
            #[trigger] selects(select, pool, m_max, kept) && row.to_multiset()
                == kept.to_multiset()
    } else {
        row.to_multiset() == pool.to_multiset()
    }
}

/// Whether `row` is what becomes of the edges of `members[i]`.
pub open spec fn is_merged_row<Sel>(
    select: &Sel,
    members: Seq<u32>,
    adjacency: Seq<Vec<OrderedNode>>,
    m_max: usize,
    i: int,
    row: Seq<OrderedNode>,
) -> bool where Sel: Fn(Vec<OrderedNode>, usize) -> Vec<OrderedNode> {
    exists|pool: Seq<OrderedNode>|
        #[trigger] is_pool(members, adjacency, i, pool) && is_kept(select, pool, m_max, row)
}

/// Whether edge `e` of `members[i]` leads to a node of the level.
pub open spec fn leads_inside(
    members: Seq<u32>,
    adjacency: Seq<Vec<OrderedNode>>,
    i: int,
    e: int,
) -> bool {
    members.contains(adjacency[i]@[e].id)
}

/// Whether every edge leads to a node of the level.
pub open spec fn is_closed(members: Seq<u32>, adjacency: Seq<Vec<OrderedNode>>) -> bool {
    forall|i: int, e: int|
        0 <= i < adjacency.len() && 0 <= e < adjacency[i]@.len() ==> #[trigger] leads_inside(
            members,
            adjacency,
            i,
            e,
        )
}

/// Whether edge `e` of `members[i]` is the first to leave the level.
pub open spec fn is_first_stray(
    members: Seq<u32>,
    adjacency: Seq<Vec<OrderedNode>>,
    i: int,
    e: int,
) -> bool {
    &&& 0 <= i < adjacency.len()
    &&& 0 <= e < adjacency[i]@.len()
    &&& !leads_inside(members, adjacency, i, e)
    &&& forall|j: int, f: int|
        0 <= j < adjacency.len() && 0 <= f < adjacency[j]@.len() && (j < i || (j == i && f < e))
            ==> #[trigger] leads_inside(members, adjacency, j, f)
}

/// What is reported for a neighbour that is not on the level.
pub open spec fn stray_neighbour(id: nat, source: nat) -> Seq<char> {
    "HNSW exact-knn construction picked node "@ + decimal(id) + " as a neighbour of node "@
        + decimal(source) + ", but it is not on this level"@
}

/// The position in `members` of each of `len` nodes.
fn member_index(len: usize, members: &Vec<u32>) -> (index: Vec<u32>)
    requires
        is_level(members@, len as int),
    ensures
        index@.len() == len,
        forall|id: u32|
            id < len ==> if #[trigger] index@[id as int] == NOT_ON_LEVEL {
                !members@.contains(id)
            } else {
                index@[id as int] < members@.len() && members@[index@[id as int] as int] == id
            },
{
    let mut index: Vec<u32> = vec![NOT_ON_LEVEL; len];
    let mut p: usize = 0;
    while p < members.len()
        invariant
            p <= members@.len(),
            is_level(members@, len as int),
            index@.len() == len,
            forall|id: u32|
                id < len ==> if #[trigger] index@[id as int] == NOT_ON_LEVEL {
                    forall|q: int| 0 <= q < p ==> #[trigger] members@[q] != id
                } else {
                    index@[id as int] < p && members@[index@[id as int] as int] == id
                },
        decreases members@.len() - p,
    {
        let id: u32 = members[p];
        assert(members@[p as int] < len);
        index[id as usize] = p as u32;
        p += 1;
    }
    index
}

/// The reverse of every edge, by the node it leads to.
fn reverse_edges(len: usize, members: &Vec<u32>, adjacency: &Vec<Vec<OrderedNode>>) -> (r: Result<
    Vec<Vec<OrderedNode>>,
    Error,
>)
    requires
        is_level(members@, len as int),
        adjacency@.len() == members@.len(),
    ensures
        r is Ok <==> is_closed(members@, adjacency@),
        r matches Ok(reverse) ==> {
            &&& reverse@.len() == adjacency@.len()
            &&& forall|t: int, x: OrderedNode|
                0 <= t < reverse@.len() ==> (#[trigger] reverse@[t]@.contains(x) <==> is_reverse(
                    members@,
                    adjacency@,
                    t,
                    x,
                    adjacency@.len() as int,
                    0,
                ))
        },
        r matches Err(error) ==> error is Internal && exists|i: int, e: int| #[trigger]
            is_first_stray(members@, adjacency@, i, e) && error.text() == stray_neighbour(
                adjacency@[i]@[e].id as nat,
                members@[i] as nat,
            ),
{
    let index = member_index(len, members);
    let mut reverse: Vec<Vec<OrderedNode>> = Vec::new();
    let mut t: usize = 0;
    while t < adjacency.len()
        invariant
            t <= adjacency@.len(),
            reverse@.len() == t,
            forall|q: int| 0 <= q < t ==> (#[trigger] reverse@[q])@.len() == 0,
        decreases adjacency@.len() - t,
    {
        reverse.push(Vec::new());
        t += 1;
    }
    let mut i: usize = 0;
    while i < adjacency.len()
        invariant
            i <= adjacency@.len(),
            is_level(members@, len as int),
            adjacency@.len() == members@.len(),
            reverse@.len() == adjacency@.len(),
            index@.len() == len,
            forall|id: u32|
                id < len ==> if #[trigger] index@[id as int] == NOT_ON_LEVEL {
                    !members@.contains(id)
                } else {
                    index@[id as int] < members@.len() && members@[index@[id as int] as int]
                        == id
                },
            forall|j: int, f: int|
                0 <= j < i && 0 <= f < adjacency@[j]@.len() ==> #[trigger] leads_inside(
                    members@,
                    adjacency@,
                    j,
                    f,
                ),
            forall|t: int, x: OrderedNode|
                0 <= t < reverse@.len() ==> (#[trigger] reverse@[t]@.contains(x) <==> is_reverse(
                    members@,
                    adjacency@,
                    t,
                    x,
                    i as int,
                    0,
                )),
        decreases adjacency@.len() - i,
    {
        let source: u32 = members[i];
        let edges = &adjacency[i];
        let mut e: usize = 0;
        while e < edges.len()
            invariant
                i < adjacency@.len(),
                e <= edges@.len(),
                edges@ == adjacency@[i as int]@,
                source == members@[i as int],
                is_level(members@, len as int),
                adjacency@.len() == members@.len(),
                reverse@.len() == adjacency@.len(),
                index@.len() == len,
                forall|id: u32|
                    id < len ==> if #[trigger] index@[id as int] == NOT_ON_LEVEL {
                        !members@.contains(id)
                    } else {
                        index@[id as int] < members@.len() && members@[index@[id as int] as int]
                            == id
                    },
                forall|j: int, f: int|
                    0 <= j < adjacency@.len() && 0 <= f < adjacency@[j]@.len() && (j < i || (j == i
                        && f < e)) ==> #[trigger] leads_inside(members@, adjacency@, j, f),
                forall|t: int, x: OrderedNode|
                    0 <= t < reverse@.len() ==> (#[trigger] reverse@[t]@.contains(x)
                        <==> is_reverse(members@, adjacency@, t, x, i as int, e as int)),
            decreases edges@.len() - e,
        {
            let edge: OrderedNode = edges[e];
            let target: u32 = if (edge.id as usize) < index.len() {
                index[edge.id as usize]
            } else {
                NOT_ON_LEVEL
            };
            if target == NOT_ON_LEVEL {
                let mut message = String::from_str("HNSW exact-knn construction picked node ");
                append_decimal(&mut message, edge.id as u64);
                message.append(" as a neighbour of node ");
                append_decimal(&mut message, source as u64);
                message.append(", but it is not on this level");
                assert(!leads_inside(members@, adjacency@, i as int, e as int));
                assert(is_first_stray(members@, adjacency@, i as int, e as int));
                return Err(Error::Internal { message });
            }
            let ghost before = reverse@;
            let back = OrderedNode { id: source, dist: edge.dist };
            reverse[target as usize].push(back);
            proof {
                assert(members@[target as int] == edge.id);
                assert(leads_inside(members@, adjacency@, i as int, e as int));
                assert forall|t: int, x: OrderedNode| 0 <= t < reverse@.len() implies (
                #[trigger] reverse@[t]@.contains(x) <==> is_reverse(
                    members@,
                    adjacency@,
                    t,
                    x,
                    i as int,
                    e + 1,
                )) by {
                    lemma_next_reverse(
                        members@,
                        adjacency@,
                        t,
                        x,
                        i as int,
                        e as int,
                    );
                    assert(before[t]@.contains(x) <==> is_reverse(
                        members@,
                        adjacency@,
                        t,
                        x,
                        i as int,
                        e as int,
                    ));
                    if t == target {
                        assert(reverse@[t]@ =~= before[t]@.push(back));
                        lemma_pushed(before[t]@, back, x);
                    } else {
                        assert(reverse@[t] == before[t]);
                        assert(members@[t] != members@[target as int]);
                    }
                }
            }
            e += 1;
        }
        proof {
            assert forall|t: int, x: OrderedNode| 0 <= t < reverse@.len() implies (
            #[trigger] reverse@[t]@.contains(x) <==> is_reverse(
                members@,
                adjacency@,
                t,
                x,
                i + 1,
                0,
            )) by {
                assert(is_reverse(members@, adjacency@, t, x, i as int, e as int) <==> is_reverse(
                    members@,
                    adjacency@,
                    t,
                    x,
                    i + 1,
                    0,
                ));
            }
        }
        i += 1;
    }
    Ok(reverse)
}

proof fn lemma_pushed(s: Seq<OrderedNode>, a: OrderedNode, x: OrderedNode)
    ensures
        s.push(a).contains(x) <==> s.contains(x) || x == a,
{
    if s.contains(x) {
        let p = choose|p: int| 0 <= p < s.len() && s[p] == x;
        assert(s.push(a)[p] == x);
    }
    assert(s.push(a)[s.len() as int] == a);
}

/// Taking in one more edge adds its own reverse.
proof fn lemma_next_reverse(
    members: Seq<u32>,
    adjacency: Seq<Vec<OrderedNode>>,
    t: int,
    x: OrderedNode,
    i: int,
    e: int,
)
    requires
        0 <= i < adjacency.len(),
        0 <= e < adjacency[i]@.len(),
    ensures
        is_reverse(members, adjacency, t, x, i, e + 1) <==> {
            ||| is_reverse(members, adjacency, t, x, i, e)
            ||| adjacency[i]@[e].id == members[t] && x == (OrderedNode {
                id: members[i],
                dist: adjacency[i]@[e].dist,
            })
        },
{
    if adjacency[i]@[e].id == members[t] && x == (OrderedNode {
        id: members[i],
        dist: adjacency[i]@[e].dist,
    }) {
        assert(is_reverse(members, adjacency, t, x, i, e + 1));
    }
}

/// Whether `pool` holds each neighbour of the first `i` edges once, at its least
/// distance.
spec fn is_deduped(edges: Seq<OrderedNode>, i: int, pool: Seq<OrderedNode>) -> bool {
    &&& i > 0 ==> pool.len() > 0 && pool.last().id == edges[i - 1].id && node_key(
        true,
        pool.last(),
    ) <= node_key(true, edges[i - 1])
    &&& i == 0 ==> pool.len() == 0
    &&& forall|p: int, q: int|
        0 <= p < q < pool.len() ==> (#[trigger] pool[p]).id < (#[trigger] pool[q]).id
    &&& forall|p: int| 0 <= p < pool.len() ==> edges.contains(#[trigger] pool[p])
    &&& forall|q: int| 0 <= q < i ==> pool_holds(pool, #[trigger] edges[q])
}

proof fn lemma_deduped_next(
    edges: Seq<OrderedNode>,
    i: int,
    pool: Seq<OrderedNode>,
    next: Seq<OrderedNode>,
)
    requires
        0 <= i < edges.len(),
        in_order(true, edges),
        is_deduped(edges, i, pool),
        next == if pool.len() == 0 || pool.last().id != edges[i].id {
            pool.push(edges[i])
        } else {
            pool
        },
    ensures
        is_deduped(edges, i + 1, next),
{
    let edge = edges[i];
    if i > 0 {
        assert(node_key(true, edges[i - 1]) <= node_key(true, edge));
        lemma_node_key(true, edges[i - 1], edge);
        lemma_node_key(true, pool.last(), edge);
    }
    assert forall|p: int, q: int| 0 <= p < q < next.len() implies (#[trigger] next[p]).id < (
    #[trigger] next[q]).id by {
        if q == pool.len() && p < pool.len() - 1 {
            assert(pool[p].id < pool[pool.len() - 1].id);
        }
    }
    assert forall|q: int| 0 <= q < i + 1 implies pool_holds(next, #[trigger] edges[q]) by {
        if q < i {
            assert(pool_holds(pool, edges[q]));
            let p = choose|p: int|
                0 <= p < pool.len() && (#[trigger] pool[p]).id == edges[q].id
                    && pool[p].dist.total_rank() <= edges[q].dist.total_rank();
            assert(next[p] == pool[p]);
        } else {
            assert(next[next.len() - 1].id == edge.id);
        }
    }
    assert forall|p: int| 0 <= p < next.len() implies edges.contains(#[trigger] next[p]) by {
        if p < pool.len() {
            assert(next[p] == pool[p]);
        } else {
            assert(next[p] == edges[i]);
        }
    }
}

/// The edges of two lists by ascending id, each neighbour once.
///
/// An edge chosen from both ends arrives twice. Both copies carry the same
/// distance, or else the lesser one stays.
fn pooled(own: &Vec<OrderedNode>, reverse: &Vec<OrderedNode>) -> (pool: Vec<OrderedNode>)
    ensures
        forall|p: int, q: int|
            0 <= p < q < pool@.len() ==> (#[trigger] pool@[p]).id < (#[trigger] pool@[q]).id,
        forall|p: int|
            0 <= p < pool@.len() ==> own@.contains(#[trigger] pool@[p]) || reverse@.contains(
                pool@[p],
            ),
        forall|x: OrderedNode| #[trigger] own@.contains(x) ==> pool_holds(pool@, x),
        forall|x: OrderedNode| #[trigger] reverse@.contains(x) ==> pool_holds(pool@, x),
{
    let mut edges: Vec<OrderedNode> = Vec::new();
    edges.extend_from_slice(own.as_slice());
    edges.extend_from_slice(reverse.as_slice());
    assert(edges@ =~= own@ + reverse@);
    let by_id = sorted_nodes(&edges, true);
    proof {
        assert forall|x: OrderedNode| #[trigger] by_id@.contains(x) <==> own@.contains(x)
            || reverse@.contains(x) by {
            vstd::seq_lib::to_multiset_contains(by_id@, x);
            vstd::seq_lib::to_multiset_contains(edges@, x);
            lemma_joined(own@, reverse@, x);
        }
    }
    let mut pool: Vec<OrderedNode> = Vec::new();
    let mut i: usize = 0;
    while i < by_id.len()
        invariant
            i <= by_id@.len(),
            in_order(true, by_id@),
            is_deduped(by_id@, i as int, pool@),
        decreases by_id@.len() - i,
    {
        let edge: OrderedNode = by_id[i];
        let ghost before = pool@;
        if pool.len() == 0 || pool[pool.len() - 1].id != edge.id {
            pool.push(edge);
        }
        proof {
            lemma_deduped_next(by_id@, i as int, before, pool@);
        }
        i += 1;
    }
    proof {
        assert forall|x: OrderedNode| by_id@.contains(x) implies pool_holds(pool@, x) by {
            let q = choose|q: int| 0 <= q < by_id@.len() && by_id@[q] == x;
            assert(pool_holds(pool@, by_id@[q]));
        }
        assert forall|x: OrderedNode| #[trigger] own@.contains(x) implies pool_holds(pool@, x) by {
            assert(by_id@.contains(x));
        }
        assert forall|x: OrderedNode| #[trigger] reverse@.contains(x) implies pool_holds(
            pool@,
            x,
        ) by {
            assert(by_id@.contains(x));
        }
    }
    pool
}

proof fn lemma_joined(a: Seq<OrderedNode>, b: Seq<OrderedNode>, x: OrderedNode)
    ensures
        (a + b).contains(x) <==> a.contains(x) || b.contains(x),
{
    if a.contains(x) {
        let p = choose|p: int| 0 <= p < a.len() && a[p] == x;
        assert((a + b)[p] == x);
    }
    if b.contains(x) {
        let p = choose|p: int| 0 <= p < b.len() && b[p] == x;
        assert((a + b)[a.len() + p] == x);
    }
    if (a + b).contains(x) {
        let p = choose|p: int| 0 <= p < (a + b).len() && (a + b)[p] == x;
        if p < a.len() {
            assert(a[p] == x);
        } else {
            assert(b[p - a.len()] == x);
        }
    }
}

/// What becomes of the edges of `members[i]`, whose reverse edges are `reverse`.
fn merged_row<Sel>(
    len: usize,
    members: &Vec<u32>,
    adjacency: &Vec<Vec<OrderedNode>>,
    i: usize,
    reverse: &Vec<OrderedNode>,
    m_max: usize,
    select: &Sel,
) -> (row: Vec<OrderedNode>) where Sel: Fn(Vec<OrderedNode>, usize) -> Vec<OrderedNode>
    requires
        selector_ready(select, len as int),
        is_level(members@, len as int),
        is_closed(members@, adjacency@),
        adjacency@.len() == members@.len(),
        i < adjacency@.len(),
        forall|x: OrderedNode| #[trigger]
            reverse@.contains(x) <==> is_reverse(
                members@,
                adjacency@,
                i as int,
                x,
                adjacency@.len() as int,
                0,
            ),
    ensures
        is_merged_row(select, members@, adjacency@, m_max, i as int, row@),
{
    let pool = pooled(&adjacency[i], reverse);
    let ghost union = pool@;
    proof {
        reveal(is_pool);
        assert forall|x: OrderedNode| #[trigger]
            is_edge(members@, adjacency@, i as int, x) implies pool_holds(union, x) by {
            assert(adjacency@[i as int]@.contains(x) || reverse@.contains(x));
        }
        assert(is_pool(members@, adjacency@, i as int, union));
        assert forall|p: int| 0 <= p < union.len() implies (#[trigger] union[p]).id < len by {
            lemma_edge_inside(members@, adjacency@, i as int, union[p]);
            let q = choose|q: int| 0 <= q < members@.len() && members@[q] == union[p].id;
            assert(members@[q] < len);
        }
    }
    if pool.len() > m_max {
        let kept = select(pool, m_max);
        let row = sorted_nodes(&kept, false);
        assert(selects(select, union, m_max, kept@));
        assert(is_kept(select, union, m_max, row@));
        row
    } else {
        let row = sorted_nodes(&pool, false);
        assert(is_kept(select, union, m_max, row@));
        row
    }
}

/// Where every edge leads to a node of the level, so does every edge taken from
/// either end.
pub proof fn lemma_edge_inside(
    members: Seq<u32>,
    adjacency: Seq<Vec<OrderedNode>>,
    i: int,
    x: OrderedNode,
)
    requires
        is_closed(members, adjacency),
        adjacency.len() == members.len(),
        0 <= i < adjacency.len(),
        is_edge(members, adjacency, i, x),
    ensures
        members.contains(x.id),
{
    if adjacency[i]@.contains(x) {
        let e = choose|e: int| 0 <= e < adjacency[i]@.len() && adjacency[i]@[e] == x;
        assert(leads_inside(members, adjacency, i, e));
    } else {
        let (j, e) = choose|j: int, e: int|
            {
                &&& 0 <= j < adjacency.len()
                &&& 0 <= e < adjacency[j]@.len()
                &&& j < adjacency.len() || (j == adjacency.len() && e < 0)
                &&& (#[trigger] adjacency[j]@[e]).id == members[i]
                &&& x == (OrderedNode { id: members[j], dist: adjacency[j]@[e].dist })
            };
        assert(members[j] == x.id);
    }
}

/// Adds the reverse of every edge, unconditionally, and re-prunes whoever that
/// pushes past `m_max`. This makes the level's edge set symmetric before pruning.
pub fn merge_bidirectional<Sel>(
    len: usize,
    members: &Vec<u32>,
    adjacency: Vec<Vec<OrderedNode>>,
    m_max: usize,
    select: &Sel,
) -> (r: Result<Vec<Vec<OrderedNode>>, Error>) where
    Sel: Fn(Vec<OrderedNode>, usize) -> Vec<OrderedNode> + Sync,

    requires
        selector_ready(select, len as int),
        is_level(members@, len as int),
        adjacency@.len() == members@.len(),
    ensures
        r is Ok <==> is_closed(members@, adjacency@),
        r matches Ok(rows) ==> {
            &&& rows@.len() == members@.len()
            &&& forall|i: int|
                0 <= i < rows@.len() ==> is_merged_row(
                    select,
                    members@,
                    adjacency@,
                    m_max,
                    i,
                    (#[trigger] rows@[i])@,
                )
        },
        r matches Err(error) ==> error is Internal && exists|i: int, e: int| #[trigger]
            is_first_stray(members@, adjacency@, i, e) && error.text() == stray_neighbour(
                adjacency@[i]@[e].id as nat,
                members@[i] as nat,
            ),
{
    let reverse = match reverse_edges(len, members, &adjacency) {
        Err(error) => {
            return Err(error);
        },
        Ok(reverse) => reverse,
    };
    let edges = &adjacency;
    let back = &reverse;
    let merge_one = |i: usize| -> (row: Vec<OrderedNode>)
        requires
            selector_ready(select, len as int),
            is_level(members@, len as int),
            is_closed(members@, edges@),
            edges@.len() == members@.len(),
            back@.len() == edges@.len(),
            i < edges@.len(),
            forall|x: OrderedNode| #[trigger]
                back@[i as int]@.contains(x) <==> is_reverse(
                    members@,
                    edges@,
                    i as int,
                    x,
                    edges@.len() as int,
                    0,
                ),
        ensures
            is_merged_row(select, members@, edges@, m_max, i as int, row@),
        { merged_row(len, members, edges, i, &back[i], m_max, select) };
    let rows = par_map(edges.len(), merge_one);
    proof {
        assert forall|i: int| 0 <= i < rows@.len() implies is_merged_row(
            select,
            members@,
            adjacency@,
            m_max,
            i,
            (#[trigger] rows@[i])@,
        ) by {
            let at = i as usize;
            assert(call_ensures(merge_one, (at,), rows@[at as int]));
        }
    }
    Ok(rows)
}

/// The candidates of `members[i]` by the neighbour table of the level, whose ids
/// are positions in `members`.
pub open spec fn candidates_of(members: Seq<u32>, knn: &ExactKnn, i: int) -> Seq<OrderedNode> {
    Seq::new(
        knn.k as nat,
        |r: int|
            OrderedNode {
                id: members[knn.ids_of(i)[r] as int],
                dist: knn.distances_of(i)[r],
            },
    )
}

/// Whether `selected` is what the selection keeps of each member's candidates.
pub open spec fn is_selection<Sel>(
    select: &Sel,
    members: Seq<u32>,
    knn: &ExactKnn,
    m_max: usize,
    selected: Seq<Vec<OrderedNode>>,
) -> bool where Sel: Fn(Vec<OrderedNode>, usize) -> Vec<OrderedNode> {
    &&& selected.len() == members.len()
    &&& forall|i: int|
        0 <= i < selected.len() ==> selects(
            select,
            candidates_of(members, knn, i),
            m_max,
            (#[trigger] selected[i])@,
        )
}

/// Whether `rows` are the edges of one level: each member's neighbours selected
/// from its exact candidates, merged with the edges that chose it.
pub open spec fn is_level_graph<Sel>(
    select: &Sel,
    members: Seq<u32>,
    knn: &ExactKnn,
    m_max: usize,
    rows: Seq<Vec<OrderedNode>>,
) -> bool where Sel: Fn(Vec<OrderedNode>, usize) -> Vec<OrderedNode> {
    &&& rows.len() == members.len()
    &&& exists|selected: Seq<Vec<OrderedNode>>|
        {
            &&& #[trigger] is_selection(select, members, knn, m_max, selected)
            &&& is_closed(members, selected)
            &&& forall|i: int|
                0 <= i < rows.len() ==> is_merged_row(
                    select,
                    members,
                    selected,
                    m_max,
                    i,
                    (#[trigger] rows[i])@,
                )
        }
}

/// Whether `error` reports the first neighbour that the selection picked outside
/// the level.
pub open spec fn is_stray_error<Sel>(
    select: &Sel,
    members: Seq<u32>,
    knn: &ExactKnn,
    m_max: usize,
    error: Error,
) -> bool where Sel: Fn(Vec<OrderedNode>, usize) -> Vec<OrderedNode> {
    error is Internal && exists|selected: Seq<Vec<OrderedNode>>, i: int, e: int|
        {
            &&& #[trigger] is_selection(select, members, knn, m_max, selected)
            &&& #[trigger] is_first_stray(members, selected, i, e)
            &&& error.text() == stray_neighbour(selected[i]@[e].id as nat, members[i] as nat)
        }
}

/// Whether a neighbour table is one of the nodes of a level.
pub open spec fn is_table_of(members: Seq<u32>, knn: &ExactKnn) -> bool {
    &&& knn.wf()
    &&& knn.num_nodes == members.len()
    &&& forall|p: int| 0 <= p < knn.ids@.len() ==> #[trigger] knn.ids@[p] < members.len()
}

/// The selection of one member.
fn select_member<Sel>(
    len: usize,
    members: &Vec<u32>,
    knn: &ExactKnn,
    i: usize,
    m_max: usize,
    select: &Sel,
) -> (kept: Vec<OrderedNode>) where Sel: Fn(Vec<OrderedNode>, usize) -> Vec<OrderedNode>
    requires
        selector_ready(select, len as int),
        is_level(members@, len as int),
        is_table_of(members@, knn),
        i < members@.len(),
    ensures
        selects(select, candidates_of(members@, knn, i as int), m_max, kept@),
{
    proof {
        lemma_row_fits(i as int, knn.num_nodes as int, knn.k as int);
    }
    let (ids, dists) = knn.neighbours(i);
    let mut candidates: Vec<OrderedNode> = Vec::new();
    let mut r: usize = 0;
    while r < knn.k
        invariant
            r <= knn.k,
            is_level(members@, len as int),
            is_table_of(members@, knn),
            i < members@.len(),
            0 <= i * knn.k,
            i * knn.k + knn.k <= knn.ids@.len(),
            ids@ == knn.ids_of(i as int),
            dists@ == knn.distances_of(i as int),
            ids@.len() == knn.k,
            dists@.len() == knn.k,
            candidates@ == candidates_of(members@, knn, i as int).take(r as int),
            forall|p: int| 0 <= p < r ==> (#[trigger] candidates@[p]).id < len,
        decreases knn.k - r,
    {
        assert(ids@[r as int] == knn.ids@[i * knn.k + r]);
        let at: u32 = ids[r];
        assert(members@[at as int] < len);
        candidates.push(OrderedNode { id: members[at as usize], dist: dists[r] });
        r += 1;
        assert(candidates@ =~= candidates_of(members@, knn, i as int).take(r as int));
    }
    assert(candidates@ =~= candidates_of(members@, knn, i as int));
    select(candidates, m_max)
}

/// One level's edges, by position in `members` and with the ids of the nodes.
///
/// `knn` is the neighbour table of the members' vectors in the order of
/// `members`, so its ids are positions in `members`.
pub fn level_edges<Sel>(
    len: usize,
    members: &Vec<u32>,
    knn: &ExactKnn,
    m_max: usize,
    select: &Sel,
) -> (r: Result<Vec<Vec<OrderedNode>>, Error>) where
    Sel: Fn(Vec<OrderedNode>, usize) -> Vec<OrderedNode> + Sync,

    requires
        selector_ready(select, len as int),
        is_level(members@, len as int),
        is_table_of(members@, knn),
    ensures
        r matches Ok(rows) ==> is_level_graph(select, members@, knn, m_max, rows@),
        r matches Err(error) ==> is_stray_error(select, members@, knn, m_max, error),
{
    let select_one = |i: usize| -> (kept: Vec<OrderedNode>)
        requires
            selector_ready(select, len as int),
            is_level(members@, len as int),
            is_table_of(members@, knn),
            i < members@.len(),
        ensures
            selects(select, candidates_of(members@, knn, i as int), m_max, kept@),
        { select_member(len, members, knn, i, m_max, select) };
    let selected = par_map(members.len(), select_one);
    let ghost chosen = selected@;
    proof {
        assert forall|i: int| 0 <= i < chosen.len() implies selects(
            select,
            candidates_of(members@, knn, i),
            m_max,
            (#[trigger] chosen[i])@,
        ) by {
            let at = i as usize;
            assert(call_ensures(select_one, (at,), selected@[at as int]));
        }
        assert(is_selection(select, members@, knn, m_max, chosen));
    }
    merge_bidirectional(len, members, selected, m_max, select)
}

/// The nodes among the first `len` that reach `level`, by ascending id.
pub open spec fn members_of(levels: Seq<usize>, level: int, len: int) -> Seq<u32>
    decreases len,
{
    if len <= 0 {
        seq![]
    } else {
        let before = members_of(levels, level, len - 1);
        if levels[len - 1] > level {
            before.push((len - 1) as u32)
        } else {
            before
        }
    }
}

pub proof fn lemma_members_of(levels: Seq<usize>, level: int, len: int)
    requires
        0 <= len <= u32::MAX,
    ensures
        members_of(levels, level, len).len() <= len,
        is_level(members_of(levels, level, len), len),
        forall|p: int|
            0 <= p < members_of(levels, level, len).len() ==> levels[(#[trigger] members_of(
                levels,
                level,
                len,
            )[p]) as int] > level,
    decreases len,
{
    if len > 0 {
        lemma_members_of(levels, level, len - 1);
        let before = members_of(levels, level, len - 1);
        let now = members_of(levels, level, len);
        assert forall|p: int, q: int|
            0 <= p < now.len() && 0 <= q < now.len() && p != q implies now[p] != now[q] by {
            if p < before.len() {
                assert(before[p] < len - 1);
            }
            if q < before.len() {
                assert(before[q] < len - 1);
            }
        }
        assert forall|p: int| 0 <= p < now.len() implies #[trigger] now[p] < len
            && levels[now[p] as int] > level by {
            if p < before.len() {
                assert(before[p] < len - 1);
            }
        }
    }
}

/// The nodes that reach `level`, by ascending id.
fn level_members(levels: &Vec<usize>, level: usize) -> (members: Vec<u32>)
    requires
        levels@.len() <= u32::MAX,
    ensures
        members@ == members_of(levels@, level as int, levels@.len() as int),
{
    let mut members: Vec<u32> = Vec::new();
    let mut id: usize = 0;
    while id < levels.len()
        invariant
            id <= levels@.len() <= u32::MAX,
            members@ == members_of(levels@, level as int, id as int),
        decreases levels@.len() - id,
    {
        if levels[id] > level {
            members.push(id as u32);
        }
        id += 1;
    }
    members
}

/// The vectors of `members`, one after the other.
pub open spec fn gathered(vectors: Seq<u16>, dim: int, members: Seq<u32>) -> Seq<u16>
    decreases members.len(),
{
    if members.len() == 0 {
        seq![]
    } else {
        let start = members.last() * dim;
        gathered(vectors, dim, members.drop_last()) + vectors.subrange(start, start + dim)
    }
}

/// The vectors of `members`, one after the other.
fn gather(vectors: &[u16], len: usize, dim: usize, members: &Vec<u32>) -> (out: Vec<u16>)
    requires
        vectors@.len() == len * dim,
        is_level(members@, len as int),
    ensures
        out@ == gathered(vectors@, dim as int, members@),
        out@.len() == members@.len() * dim,
{
    let mut out: Vec<u16> = Vec::new();
    let mut p: usize = 0;
    assert(vectors.len() == vectors@.len());
    while p < members.len()
        invariant
            p <= members@.len(),
            vectors@.len() == len * dim,
            vectors.len() == vectors@.len(),
            is_level(members@, len as int),
            out@ == gathered(vectors@, dim as int, members@.take(p as int)),
            out@.len() == p * dim,
        decreases members@.len() - p,
    {
        let id: u32 = members[p];
        assert(members@[p as int] < len);
        proof {
            lemma_row_fits(id as int, len as int, dim as int);
            lemma_row_fits(p as int, p + 1, dim as int);
            assert(members@.take(p + 1).drop_last() =~= members@.take(p as int));
        }
        let start: usize = id as usize * dim;
        out.extend_from_slice(&vectors[start..start + dim]);
        p += 1;
    }
    assert(members@.take(p as int) =~= members@);
    out
}

/// Whether there is a list of edges for each level of each node.
pub open spec fn is_ranked(levels: Seq<usize>, ranked: Seq<Vec<Vec<OrderedNode>>>) -> bool {
    &&& ranked.len() == levels.len()
    &&& forall|id: int| 0 <= id < ranked.len() ==> (#[trigger] ranked[id])@.len() == levels[id]
}

/// Files one level's edges into the lists of the nodes, by the node at each
/// position.
fn scatter_level(
    ranked: &mut Vec<Vec<Vec<OrderedNode>>>,
    level: usize,
    members: &Vec<u32>,
    edges: Vec<Vec<OrderedNode>>,
    Ghost(levels): Ghost<Seq<usize>>,
)
    requires
        is_ranked(levels, old(ranked)@),
        levels.len() <= u32::MAX,
        is_level(members@, levels.len() as int),
        forall|p: int| 0 <= p < members@.len() ==> levels[(#[trigger] members@[p]) as int] > level,
        edges@.len() == members@.len(),
    ensures
        is_ranked(levels, final(ranked)@),
        forall|p: int|
            0 <= p < members@.len() ==> final(ranked)@[(#[trigger] members@[p]) as int]@[level as int]
                == edges@[p],
        forall|id: int, l: int|
            0 <= id < levels.len() && 0 <= l < levels[id] && (l != level || !members@.contains(
                id as u32,
            )) ==> #[trigger] final(ranked)@[id]@[l] == old(ranked)@[id]@[l],
{
    let ghost all = edges@;
    let mut rest = edges;
    while rest.len() > 0
        invariant
            rest@.len() <= members@.len(),
            all.len() == members@.len(),
            rest@ == all.take(rest@.len() as int),
            is_ranked(levels, ranked@),
            levels.len() <= u32::MAX,
            is_level(members@, levels.len() as int),
            forall|p: int|
                0 <= p < members@.len() ==> levels[(#[trigger] members@[p]) as int] > level,
            forall|p: int|
                rest@.len() <= p < members@.len() ==> ranked@[(
                #[trigger] members@[p]) as int]@[level as int] == all[p],
            forall|id: int, l: int|
                0 <= id < levels.len() && 0 <= l < levels[id] && (l != level || !members@.contains(
                    id as u32,
                )) ==> #[trigger] ranked@[id]@[l] == old(ranked)@[id]@[l],
        decreases rest@.len(),
    {
        let at: usize = rest.len() - 1;
        let ghost before = ranked@;
        match rest.pop() {
            Some(node_edges) => {
                assert(node_edges == all[at as int]);
                assert(rest@ =~= all.take(at as int));
                let id: u32 = members[at];
                assert(members@[at as int] < levels.len());
                assert(ranked@[id as int]@.len() == levels[id as int]);
                ranked[id as usize][level] = node_edges;
                proof {
                    assert(members@.contains(id));
                    assert forall|i: int| 0 <= i < ranked@.len() implies (
                    #[trigger] ranked@[i])@.len() == levels[i] by {
                        assert(before[i]@.len() == levels[i]);
                    }
                    assert forall|p: int| at <= p < members@.len() implies ranked@[(
                    #[trigger] members@[p]) as int]@[level as int] == all[p] by {
                        if p != at {
                            assert(members@[p] != members@[at as int]);
                        }
                    }
                    assert forall|i: int, l: int|
                        0 <= i < levels.len() && 0 <= l < levels[i] && (l != level
                            || !members@.contains(i as u32)) implies #[trigger] ranked@[i]@[l]
                        == old(ranked)@[i]@[l] by {
                        assert(before[i]@[l] == old(ranked)@[i]@[l]);
                    }
                }
            },
            None => {},
        }
    }
}

/// Whether `node` holds the edges in `ranked`, level by level, with those of the
/// bottom level mirrored into the list that search reads.
pub open spec fn is_node_of(node: GraphBuilderNode, ranked: Seq<Vec<OrderedNode>>) -> bool {
    &&& node.level_neighbors_ranked@ == ranked
    &&& node.level_neighbors@.len() == ranked.len()
    &&& forall|l: int|
        0 <= l < ranked.len() ==> (#[trigger] node.level_neighbors@[l])@ == ids_of(ranked[l]@)
    &&& node.bottom_neighbors@ == if ranked.len() == 0 {
        seq![]
    } else {
        ids_of(ranked[0]@)
    }
}

/// The ids of a list of neighbours.
fn neighbour_ids(edges: &Vec<OrderedNode>) -> (ids: Vec<u32>)
    ensures
        ids@ == ids_of(edges@),
{
    let mut ids: Vec<u32> = Vec::new();
    let mut e: usize = 0;
    while e < edges.len()
        invariant
            e <= edges@.len(),
            ids@ == ids_of(edges@).take(e as int),
        decreases edges@.len() - e,
    {
        ids.push(edges[e].id);
        e += 1;
        assert(ids@ =~= ids_of(edges@).take(e as int));
    }
    assert(ids@ =~= ids_of(edges@));
    ids
}

/// Another owner of a shared list, by `Arc::clone`: it points to the same value.
#[verifier::external_body]
fn share(list: &Arc<Vec<u32>>) -> (r: Arc<Vec<u32>>)
    ensures
        r == *list,
{
    Arc::clone(list)
}

/// Turns one node's edges into the node the graph stores, mirroring level 0 into
/// the bottom-level list search reads.
pub fn into_builder_node(ranked: Vec<Vec<OrderedNode>>) -> (node: GraphBuilderNode)
    ensures
        is_node_of(node, ranked@),
        node.level_neighbors_ranked == ranked,
{
    let mut level_neighbors: Vec<Arc<Vec<u32>>> = Vec::new();
    let mut l: usize = 0;
    while l < ranked.len()
        invariant
            l <= ranked@.len(),
            level_neighbors@.len() == l,
            forall|q: int|
                0 <= q < l ==> (#[trigger] level_neighbors@[q])@ == ids_of(ranked@[q]@),
        decreases ranked@.len() - l,
    {
        level_neighbors.push(Arc::new(neighbour_ids(&ranked[l])));
        l += 1;
    }
    let bottom_neighbors = if level_neighbors.len() == 0 {
        Arc::new(Vec::new())
    } else {
        share(&level_neighbors[0])
    };
    GraphBuilderNode { level_neighbors, level_neighbors_ranked: ranked, bottom_neighbors }
}

/// The degree cap on a level: the bottom level gets twice as many edges.
pub open spec fn degree_cap(m: int, level: int) -> int {
    if level == 0 {
        2 * m
    } else {
        m
    }
}

/// The vectors that a level's neighbour table is made of: the partition's own on
/// the bottom level, those of the members above.
pub open spec fn level_vectors(
    vectors: Seq<u16>,
    dim: int,
    levels: Seq<usize>,
    level: int,
) -> Seq<u16> {
    if level == 0 {
        vectors
    } else {
        gathered(vectors, dim, members_of(levels, level, levels.len() as int))
    }
}

/// Whether a level is connected at all: the bottom one is, and one above with two
/// nodes or more.
pub open spec fn is_connected(levels: Seq<usize>, max_level: int, level: int) -> bool {
    0 <= level < max_level && (level == 0 || members_of(
        levels,
        level,
        levels.len() as int,
    ).len() >= 2)
}

/// Whether `r` is what comes of computing the exact neighbour table of a level.
pub open spec fn is_level_table<P, Pack, Score>(
    pack: &Pack,
    score: &Score,
    vectors: Seq<u16>,
    dim: usize,
    levels: Seq<usize>,
    level: int,
    ef_construction: usize,
    r: Result<ExactKnn, Error>,
) -> bool where
    Pack: Fn(&[u16], usize, usize) -> Option<(P, usize)>,
    Score: Fn(&P, &[u16], usize, usize, usize) -> Vec<Single>,
 {
    let n = members_of(levels, level, levels.len() as int).len();
    is_table_or_refusal(
        pack,
        score,
        level_vectors(vectors, dim as int, levels, level),
        n as usize,
        dim,
        listed(ef_construction as int, n as int),
        true,
        r,
    )
}

/// Whether the nodes of a level hold its edges: those of its exact neighbour
/// table, or none where the level is not connected.
pub open spec fn is_level_filled<P, Sel, Pack, Score>(
    select: &Sel,
    pack: &Pack,
    score: &Score,
    params: HnswBuildParams,
    vectors: Seq<u16>,
    dim: usize,
    levels: Seq<usize>,
    level: int,
    ranked: Seq<Vec<Vec<OrderedNode>>>,
) -> bool where
    Sel: Fn(Vec<OrderedNode>, usize) -> Vec<OrderedNode>,
    Pack: Fn(&[u16], usize, usize) -> Option<(P, usize)>,
    Score: Fn(&P, &[u16], usize, usize, usize) -> Vec<Single>,
 {
    let members = members_of(levels, level, levels.len() as int);
    if is_connected(levels, params.max_level as int, level) {
        exists|knn: ExactKnn, rows: Seq<Vec<OrderedNode>>|
            {
                &&& #[trigger] is_level_table(
                    pack,
                    score,
                    vectors,
                    dim,
                    levels,
                    level,
                    params.ef_construction,
                    Ok(knn),
                )
                &&& #[trigger] is_level_graph(
                    select,
                    members,
                    &knn,
                    degree_cap(params.m as int, level) as usize,
                    rows,
                )
                &&& forall|p: int|
                    0 <= p < members.len() ==> ranked[(#[trigger] members[p]) as int]@[level]
                        == rows[p]
            }
    } else {
        forall|p: int|
            0 <= p < members.len() ==> ranked[(
            #[trigger] members[p]) as int]@[level]@.len() == 0
    }
}

/// Whether a level gives no error: it is not connected, or it has its exact neighbour
/// table and the edges that are made of it.
pub open spec fn is_level_served<P, Sel, Pack, Score>(
    select: &Sel,
    pack: &Pack,
    score: &Score,
    params: HnswBuildParams,
    vectors: Seq<u16>,
    dim: usize,
    levels: Seq<usize>,
    level: int,
) -> bool where
    Sel: Fn(Vec<OrderedNode>, usize) -> Vec<OrderedNode>,
    Pack: Fn(&[u16], usize, usize) -> Option<(P, usize)>,
    Score: Fn(&P, &[u16], usize, usize, usize) -> Vec<Single>,
 {
    is_connected(levels, params.max_level as int, level) ==> exists|
        knn: ExactKnn,
        rows: Seq<Vec<OrderedNode>>,
    |
        {
            &&& #[trigger] is_level_table(
                pack,
                score,
                vectors,
                dim,
                levels,
                level,
                params.ef_construction,
                Ok(knn),
            )
            &&& #[trigger] is_level_graph(
                select,
                members_of(levels, level, levels.len() as int),
                &knn,
                degree_cap(params.m as int, level) as usize,
                rows,
            )
        }
}

/// Whether `error` is what computing a level's neighbour table, or connecting the
/// level by it, reports.
pub open spec fn is_level_error<P, Sel, Pack, Score>(
    select: &Sel,
    pack: &Pack,
    score: &Score,
    params: HnswBuildParams,
    vectors: Seq<u16>,
    dim: usize,
    levels: Seq<usize>,
    level: int,
    error: Error,
) -> bool where
    Sel: Fn(Vec<OrderedNode>, usize) -> Vec<OrderedNode>,
    Pack: Fn(&[u16], usize, usize) -> Option<(P, usize)>,
    Score: Fn(&P, &[u16], usize, usize, usize) -> Vec<Single>,
 {
    let members = members_of(levels, level, levels.len() as int);
    &&& is_connected(levels, params.max_level as int, level)
    &&& {
        ||| is_level_table(
            pack,
            score,
            vectors,
            dim,
            levels,
            level,
            params.ef_construction,
            Err(error),
        )
        ||| exists|knn: ExactKnn|
            {
                &&& #[trigger] is_level_table(
                    pack,
                    score,
                    vectors,
                    dim,
                    levels,
                    level,
                    params.ef_construction,
                    Ok(knn),
                )
                &&& is_stray_error(
                    select,
                    members,
                    &knn,
                    degree_cap(params.m as int, level) as usize,
                    error,
                )
            }
    }
}

/// The neighbours that the table of a partition lists are nodes of it.
proof fn lemma_table_ids<P, Pack, Score>(
    pack: &Pack,
    score: &Score,
    vectors: Seq<u16>,
    n: usize,
    dim: usize,
    k: int,
    knn: ExactKnn,
) where
    Pack: Fn(&[u16], usize, usize) -> Option<(P, usize)>,
    Score: Fn(&P, &[u16], usize, usize, usize) -> Vec<Single>,

    requires
        is_table_or_refusal(pack, score, vectors, n, dim, k, true, Ok(knn)),
    ensures
        forall|p: int| 0 <= p < knn.ids@.len() ==> #[trigger] knn.ids@[p] < n,
{
    assert forall|p: int| 0 <= p < knn.ids@.len() implies #[trigger] knn.ids@[p] < n by {
        let node = lemma_slot_owner(p, n as int, k);
        let scores = choose|scores: Scores|
            #[trigger] is_score_table(pack, score, vectors, n as int, dim, true, scores)
                && knn.is_exact(scores);
        lemma_row_fits(node, n as int, k);
        lemma_lists_others(pack, score, vectors, n as int, dim, true, scores, &knn, node);
        assert(knn.ids_of(node)[p - node * k] == knn.ids@[p]);
    }
}

/// Where every node reaches a level, all nodes are its members.
proof fn lemma_all_members(levels: Seq<usize>, level: int, len: int)
    requires
        0 <= len <= levels.len(),
        forall|id: int| 0 <= id < levels.len() ==> #[trigger] levels[id] > level,
    ensures
        members_of(levels, level, len).len() == len,
    decreases len,
{
    if len > 0 {
        lemma_all_members(levels, level, len - 1);
    }
}

/// An empty list of edges for each level of each node.
fn empty_lists(levels: &Vec<usize>) -> (ranked: Vec<Vec<Vec<OrderedNode>>>)
    ensures
        is_ranked(levels@, ranked@),
        forall|id: int, l: int|
            0 <= id < levels@.len() && 0 <= l < levels@[id] ==> (
            #[trigger] ranked@[id]@[l])@.len() == 0,
{
    let mut ranked: Vec<Vec<Vec<OrderedNode>>> = Vec::new();
    let mut id: usize = 0;
    while id < levels.len()
        invariant
            id <= levels@.len(),
            ranked@.len() == id,
            forall|i: int| 0 <= i < id ==> (#[trigger] ranked@[i])@.len() == levels@[i],
            forall|i: int, l: int|
                0 <= i < id && 0 <= l < levels@[i] ==> (#[trigger] ranked@[i]@[l])@.len() == 0,
        decreases levels@.len() - id,
    {
        let mut lists: Vec<Vec<OrderedNode>> = Vec::new();
        while lists.len() < levels[id]
            invariant
                id < levels@.len(),
                lists@.len() <= levels@[id as int],
                forall|l: int| 0 <= l < lists@.len() ==> (#[trigger] lists@[l])@.len() == 0,
            decreases levels@[id as int] - lists@.len(),
        {
            lists.push(Vec::new());
        }
        ranked.push(lists);
        id += 1;
    }
    ranked
}

/// Filing the edges of one level leaves those of another as they were.
proof fn lemma_still_filled<P, Sel, Pack, Score>(
    select: &Sel,
    pack: &Pack,
    score: &Score,
    params: HnswBuildParams,
    vectors: Seq<u16>,
    dim: usize,
    levels: Seq<usize>,
    level: int,
    before: Seq<Vec<Vec<OrderedNode>>>,
    after: Seq<Vec<Vec<OrderedNode>>>,
) where
    Sel: Fn(Vec<OrderedNode>, usize) -> Vec<OrderedNode>,
    Pack: Fn(&[u16], usize, usize) -> Option<(P, usize)>,
    Score: Fn(&P, &[u16], usize, usize, usize) -> Vec<Single>,

    requires
        0 <= level,
        levels.len() <= u32::MAX,
        is_level_filled(select, pack, score, params, vectors, dim, levels, level, before),
        forall|id: int|
            0 <= id < levels.len() && level < levels[id] ==> #[trigger] after[id]@[level]
                == before[id]@[level],
    ensures
        is_level_filled(select, pack, score, params, vectors, dim, levels, level, after),
{
    let members = members_of(levels, level, levels.len() as int);
    lemma_members_of(levels, level, levels.len() as int);
    assert forall|p: int| 0 <= p < members.len() implies after[(
    #[trigger] members[p]) as int]@[level] == before[members[p] as int]@[level] by {
        assert(members[p] < levels.len());
    }
    if is_connected(levels, params.max_level as int, level) {
        let (knn, rows) = choose|knn: ExactKnn, rows: Seq<Vec<OrderedNode>>|
            {
                &&& #[trigger] is_level_table(
                    pack,
                    score,
                    vectors,
                    dim,
                    levels,
                    level,
                    params.ef_construction,
                    Ok(knn),
                )
                &&& #[trigger] is_level_graph(
                    select,
                    members,
                    &knn,
                    degree_cap(params.m as int, level) as usize,
                    rows,
                )
                &&& forall|p: int|
                    0 <= p < members.len() ==> before[(#[trigger] members[p]) as int]@[level]
                        == rows[p]
            };
        assert(is_level_table(
            pack,
            score,
            vectors,
            dim,
            levels,
            level,
            params.ef_construction,
            Ok(knn),
        ) && is_level_graph(
            select,
            members,
            &knn,
            degree_cap(params.m as int, level) as usize,
            rows,
        ));
    }
}

/// Connects one level, whose neighbour table is `knn`, and files its edges.
fn connect_level<P, Sel, Pack, Score>(
    params: &HnswBuildParams,
    vectors: &[u16],
    dim: usize,
    levels: &Vec<usize>,
    level: usize,
    members: &Vec<u32>,
    knn: &ExactKnn,
    select: &Sel,
    pack: &Pack,
    score: &Score,
    ranked: &mut Vec<Vec<Vec<OrderedNode>>>,
) -> (r: Result<(), Error>) where
    Sel: Fn(Vec<OrderedNode>, usize) -> Vec<OrderedNode> + Sync,
    Pack: Fn(&[u16], usize, usize) -> Option<(P, usize)>,
    Score: Fn(&P, &[u16], usize, usize, usize) -> Vec<Single>,

    requires
        levels@.len() <= u32::MAX,
        2 * params.m <= usize::MAX,
        selector_ready(select, levels@.len() as int),
        is_connected(levels@, params.max_level as int, level as int),
        members@ == members_of(levels@, level as int, levels@.len() as int),
        is_level_table(
            pack,
            score,
            vectors@,
            dim,
            levels@,
            level as int,
            params.ef_construction,
            Ok(*knn),
        ),
        is_ranked(levels@, old(ranked)@),
    ensures
        is_ranked(levels@, final(ranked)@),
        r is Ok ==> is_level_filled(
            select,
            pack,
            score,
            *params,
            vectors@,
            dim,
            levels@,
            level as int,
            final(ranked)@,
        ),
        forall|id: int, l: int|
            0 <= id < levels@.len() && 0 <= l < levels@[id] && l != level
                ==> #[trigger] final(ranked)@[id]@[l] == old(ranked)@[id]@[l],
        r matches Err(error) ==> is_level_error(
            select,
            pack,
            score,
            *params,
            vectors@,
            dim,
            levels@,
            level as int,
            error,
        ),
{
    proof {
        lemma_members_of(levels@, level as int, levels@.len() as int);
        lemma_table_ids(
            pack,
            score,
            level_vectors(vectors@, dim as int, levels@, level as int),
            members@.len() as usize,
            dim,
            listed(params.ef_construction as int, members@.len() as int),
            *knn,
        );
    }
    let m_max: usize = if level == 0 {
        2 * params.m
    } else {
        params.m
    };
    let rows = match level_edges(levels.len(), members, knn, m_max, select) {
        Err(error) => {
            assert(is_stray_error(select, members@, knn, m_max, error));
            return Err(error);
        },
        Ok(rows) => rows,
    };
    let ghost edges = rows@;
    scatter_level(ranked, level, members, rows, Ghost(levels@));
    assert(m_max == degree_cap(params.m as int, level as int) as usize);
    assert(is_level_graph(
        select,
        members@,
        knn,
        degree_cap(params.m as int, level as int) as usize,
        edges,
    ));
    assert(is_level_table(
        pack,
        score,
        vectors@,
        dim,
        levels@,
        level as int,
        params.ef_construction,
        Ok(*knn),
    ));
    Ok(())
}

/// What the construction reads of a partition's storage.
pub struct Partition<'a> {
    /// How many vectors the partition holds.
    pub len: usize,
    /// The distance the index uses.
    pub distance_type: DistanceType,
    /// The vectors as half-precision bit patterns, row-major, and their
    /// dimension, where the storage holds them flat and in half precision.
    pub vectors: Option<(&'a [u16], usize)>,
}

/// Whether every precondition of the exact path holds but for the form of the
/// vectors.
pub open spec fn is_eligible(
    storage: &Partition,
    params: &HnswBuildParams,
    kernel_available: bool,
) -> bool {
    &&& params.use_exact_knn_construction
    &&& params.max_level != 0
    &&& 0 < storage.len <= params.exact_knn_max_partition_size
    &&& storage.distance_type == DistanceType::Dot
    &&& kernel_available
}

/// The partition's vectors and dimension, if every precondition of the exact path
/// holds. `None` means "build incrementally", never an error: each condition
/// below is a legitimate partition this path simply does not cover.
pub fn eligible_vectors<'a>(
    storage: &Partition<'a>,
    params: &HnswBuildParams,
    kernel_available: bool,
) -> (r: Option<(&'a [u16], usize)>)
    ensures
        r == if is_eligible(storage, params, kernel_available) {
            storage.vectors
        } else {
            None
        },
{
    if !params.use_exact_knn_construction {
        return None;
    }
    if params.max_level == 0 || storage.len == 0 {
        return None;
    }
    if storage.len > params.exact_knn_max_partition_size {
        return None;
    }
    if storage.distance_type != DistanceType::Dot || !kernel_available {
        return None;
    }
    storage.vectors
}

/// Whether every node is assigned at least one level.
pub open spec fn is_assignment(levels: Seq<usize>, len: int) -> bool {
    &&& levels.len() == len
    &&& forall|id: int| 0 <= id < len ==> #[trigger] levels[id] > 0
}

/// What the level assignment and the choice of the entry point ask and owe: both
/// can be called on the partition, and every node is on the bottom level.
pub open spec fn layering_ready<Asg, Ent>(assign: &Asg, entry: &Ent, len: usize) -> bool where
    Asg: Fn(usize) -> Vec<usize>,
    Ent: Fn(&Vec<usize>) -> u32,
 {
    &&& call_requires(*assign, (len,))
    &&& forall|levels: Vec<usize>| #[trigger]
        call_ensures(*assign, (len,), levels) ==> is_assignment(levels@, len as int)
            && call_requires(*entry, (&levels,))
}

/// The edges of every node, by level.
pub open spec fn ranked_of(hnsw: &Hnsw) -> Seq<Vec<Vec<OrderedNode>>> {
    hnsw.nodes@.map_values(|node: GraphBuilderNode| node.level_neighbors_ranked)
}

/// Whether `hnsw` is a graph of the partition with nodes on `levels`: every level
/// holds the edges of its own exact neighbour table, and the counts and the nodes
/// agree with that.
pub open spec fn is_graph<P, Sel, Pack, Score>(
    select: &Sel,
    pack: &Pack,
    score: &Score,
    params: HnswBuildParams,
    vectors: Seq<u16>,
    dim: usize,
    levels: Seq<usize>,
    hnsw: &Hnsw,
) -> bool where
    Sel: Fn(Vec<OrderedNode>, usize) -> Vec<OrderedNode>,
    Pack: Fn(&[u16], usize, usize) -> Option<(P, usize)>,
    Score: Fn(&P, &[u16], usize, usize, usize) -> Vec<Single>,
 {
    &&& hnsw.params == params
    &&& is_partition(vectors.len(), levels.len(), dim as nat, DistanceType::Dot)
    &&& is_ranked(levels, ranked_of(hnsw))
    &&& forall|id: int|
        0 <= id < hnsw.nodes@.len() ==> is_node_of(
            #[trigger] hnsw.nodes@[id],
            hnsw.nodes@[id].level_neighbors_ranked@,
        )
    &&& forall|level: int|
        0 <= level ==> #[trigger] is_level_filled(
            select,
            pack,
            score,
            params,
            vectors,
            dim,
            levels,
            level,
            ranked_of(hnsw),
        )
    &&& hnsw.level_count@.len() == params.max_level
    &&& forall|level: int|
        0 <= level < params.max_level ==> #[trigger] hnsw.level_count@[level] == members_of(
            levels,
            level,
            levels.len() as int,
        ).len()
}

/// Whether `error` is the one that the construction reports for a partition with
/// nodes on `levels`: that of the first level that gives one.
pub open spec fn is_build_error<P, Sel, Pack, Score>(
    select: &Sel,
    pack: &Pack,
    score: &Score,
    params: HnswBuildParams,
    vectors: Seq<u16>,
    dim: usize,
    levels: Seq<usize>,
    error: Error,
) -> bool where
    Sel: Fn(Vec<OrderedNode>, usize) -> Vec<OrderedNode>,
    Pack: Fn(&[u16], usize, usize) -> Option<(P, usize)>,
    Score: Fn(&P, &[u16], usize, usize, usize) -> Vec<Single>,
 {
    if is_partition(vectors.len(), levels.len(), dim as nat, DistanceType::Dot) {
        exists|level: int|
            {
                &&& #[trigger] is_level_error(
                    select,
                    pack,
                    score,
                    params,
                    vectors,
                    dim,
                    levels,
                    level,
                    error,
                )
                &&& forall|l: int|
                    0 <= l < level ==> #[trigger] is_level_served(
                        select,
                        pack,
                        score,
                        params,
                        vectors,
                        dim,
                        levels,
                        l,
                    )
            }
    } else {
        is_argument_error(vectors.len(), levels.len(), dim as nat, DistanceType::Dot, error)
    }
}

/// Whether `r` is a graph of the partition, or an error for it, with nodes on
/// levels that the assignment gave.
pub open spec fn is_built<P, Asg, Ent, Sel, Pack, Score>(
    assign: &Asg,
    entry: &Ent,
    select: &Sel,
    pack: &Pack,
    score: &Score,
    params: HnswBuildParams,
    vectors: Seq<u16>,
    dim: usize,
    len: usize,
    r: Result<Hnsw, Error>,
) -> bool where
    Asg: Fn(usize) -> Vec<usize>,
    Ent: Fn(&Vec<usize>) -> u32,
    Sel: Fn(Vec<OrderedNode>, usize) -> Vec<OrderedNode>,
    Pack: Fn(&[u16], usize, usize) -> Option<(P, usize)>,
    Score: Fn(&P, &[u16], usize, usize, usize) -> Vec<Single>,
 {
    exists|levels: Vec<usize>|
        {
            &&& #[trigger] call_ensures(*assign, (len,), levels)
            &&& levels@.len() == len
            &&& match r {
                Ok(hnsw) => {
                    &&& is_graph(select, pack, score, params, vectors, dim, levels@, &hnsw)
                    &&& call_ensures(*entry, (&levels,), hnsw.entry_point)
                },
                Err(error) => is_build_error(
                    select,
                    pack,
                    score,
                    params,
                    vectors,
                    dim,
                    levels@,
                    error,
                ),
            }
        }
}

/// How many nodes reach each of `max_level` levels.
fn level_counts(levels: &Vec<usize>, max_level: u16) -> (counts: Vec<usize>)
    requires
        levels@.len() <= u32::MAX,
    ensures
        counts@.len() == max_level,
        forall|level: int|
            0 <= level < max_level ==> #[trigger] counts@[level] == members_of(
                levels@,
                level,
                levels@.len() as int,
            ).len(),
{
    let mut counts: Vec<usize> = Vec::new();
    let mut level: u16 = 0;
    while level < max_level
        invariant
            level <= max_level,
            levels@.len() <= u32::MAX,
            counts@.len() == level,
            forall|l: int|
                0 <= l < level ==> #[trigger] counts@[l] == members_of(
                    levels@,
                    l,
                    levels@.len() as int,
                ).len(),
        decreases max_level - level,
    {
        let mut count: usize = 0;
        let mut id: usize = 0;
        while id < levels.len()
            invariant
                count <= id <= levels@.len(),
                count == members_of(levels@, level as int, id as int).len(),
            decreases levels@.len() - id,
        {
            if levels[id] > level as usize {
                count += 1;
            }
            id += 1;
        }
        counts.push(count);
        level += 1;
    }
    counts
}

/// The nodes of the graph that hold the edges in `ranked`.
fn builder_nodes(ranked: Vec<Vec<Vec<OrderedNode>>>) -> (nodes: Vec<GraphBuilderNode>)
    ensures
        nodes@.len() == ranked@.len(),
        forall|id: int|
            0 <= id < nodes@.len() ==> is_node_of(#[trigger] nodes@[id], ranked@[id]@),
        nodes@.map_values(|node: GraphBuilderNode| node.level_neighbors_ranked) == ranked@,
{
    let ghost all = ranked@;
    let mut ranked = ranked;
    let mut nodes: Vec<GraphBuilderNode> = Vec::new();
    let mut id: usize = 0;
    while id < ranked.len()
        invariant
            id <= ranked@.len(),
            ranked@.len() == all.len(),
            forall|p: int| id <= p < all.len() ==> #[trigger] ranked@[p] == all[p],
            nodes@.len() == id,
            forall|p: int|
                0 <= p < id ==> is_node_of(#[trigger] nodes@[p], all[p]@)
                    && nodes@[p].level_neighbors_ranked == all[p],
        decreases ranked@.len() - id,
    {
        let mut lists: Vec<Vec<OrderedNode>> = Vec::new();
        std::mem::swap(&mut ranked[id], &mut lists);
        nodes.push(into_builder_node(lists));
        id += 1;
    }
    assert(nodes@.map_values(|node: GraphBuilderNode| node.level_neighbors_ranked) =~= all);
    nodes
}

/// Builds the graph of a partition from exact neighbour tables.
fn build<P, Asg, Ent, Sel, Pack, Score>(
    len: usize,
    params: &HnswBuildParams,
    vectors: &[u16],
    dim: usize,
    assign: &Asg,
    entry: &Ent,
    select: &Sel,
    pack: &Pack,
    score: &Score,
) -> (r: Result<Hnsw, Error>) where
    Asg: Fn(usize) -> Vec<usize>,
    Ent: Fn(&Vec<usize>) -> u32,
    Sel: Fn(Vec<OrderedNode>, usize) -> Vec<OrderedNode> + Sync,
    Pack: Fn(&[u16], usize, usize) -> Option<(P, usize)>,
    Score: Fn(&P, &[u16], usize, usize, usize) -> Vec<Single>,

    requires
        len > 0,
        params.max_level > 0,
        2 * params.m <= usize::MAX,
        layering_ready(assign, entry, len),
        selector_ready(select, len as int),
        kernel_ready(pack, score),
    ensures
        is_built(assign, entry, select, pack, score, *params, vectors@, dim, len, r),
{
    let levels = assign(len);
    let mut ranked = empty_lists(&levels);
    let knn = match exact_knn_topk(
        vectors,
        len,
        dim,
        params.ef_construction,
        DistanceType::Dot,
        pack,
        score,
    ) {
        Err(error) => {
            proof {
                if is_partition(vectors@.len(), len as nat, dim as nat, DistanceType::Dot) {
                    lemma_all_members(levels@, 0, len as int);
                    assert(is_level_error(
                        select,
                        pack,
                        score,
                        *params,
                        vectors@,
                        dim,
                        levels@,
                        0,
                        error,
                    ));
                }
            }
            return Err(error);
        },
        Ok(knn) => knn,
    };
    // Every node is on level 0.
    let members = level_members(&levels, 0);
    proof {
        lemma_all_members(levels@, 0, len as int);
    }
    if let Err(error) = connect_level(
        params,
        vectors,
        dim,
        &levels,
        0,
        &members,
        &knn,
        select,
        pack,
        score,
        &mut ranked,
    ) {
        return Err(error);
    }
    // Upper levels: only the nodes assigned to the level may be neighbours on
    // it, so each one needs a neighbour table over just its own members.
    let mut level: u16 = 1;
    while level < params.max_level
        invariant
            1 <= level <= params.max_level,
            levels@.len() == len,
            len <= u32::MAX,
            vectors@.len() == len * dim,
            2 * params.m <= usize::MAX,
            selector_ready(select, len as int),
            kernel_ready(pack, score),
            is_partition(vectors@.len(), len as nat, dim as nat, DistanceType::Dot),
            call_ensures(*assign, (len,), levels),
            is_ranked(levels@, ranked@),
            forall|l: int|
                0 <= l < level ==> #[trigger] is_level_filled(
                    select,
                    pack,
                    score,
                    *params,
                    vectors@,
                    dim,
                    levels@,
                    l,
                    ranked@,
                ),
            forall|l: int|
                0 <= l < level ==> #[trigger] is_level_served(
                    select,
                    pack,
                    score,
                    *params,
                    vectors@,
                    dim,
                    levels@,
                    l,
                ),
            forall|id: int, l: int|
                0 <= id < len && level <= l < levels@[id] ==> (
                #[trigger] ranked@[id]@[l])@.len() == 0,
        decreases params.max_level - level,
    {
        let ghost before = ranked@;
        let members = level_members(&levels, level as usize);
        proof {
            lemma_members_of(levels@, level as int, len as int);
        }
        if members.len() >= 2 {
            let level_vectors = gather(vectors, len, dim, &members);
            proof {
                assert(members@.len() * dim <= len * dim) by (nonlinear_arith)
                    requires
                        members@.len() <= len,
                ;
                assert(vectors.len() == vectors@.len());
            }
            let knn = match exact_knn_topk(
                level_vectors.as_slice(),
                members.len(),
                dim,
                params.ef_construction,
                DistanceType::Dot,
                pack,
                score,
            ) {
                Err(error) => {
                    assert(is_level_error(
                        select,
                        pack,
                        score,
                        *params,
                        vectors@,
                        dim,
                        levels@,
                        level as int,
                        error,
                    ));
                    return Err(error);
                },
                Ok(knn) => knn,
            };
            if let Err(error) = connect_level(
                params,
                vectors,
                dim,
                &levels,
                level as usize,
                &members,
                &knn,
                select,
                pack,
                score,
                &mut ranked,
            ) {
                return Err(error);
            }
            proof {
                assert forall|l: int| 0 <= l < level implies #[trigger] is_level_filled(
                    select,
                    pack,
                    score,
                    *params,
                    vectors@,
                    dim,
                    levels@,
                    l,
                    ranked@,
                ) by {
                    lemma_still_filled(
                        select,
                        pack,
                        score,
                        *params,
                        vectors@,
                        dim,
                        levels@,
                        l,
                        before,
                        ranked@,
                    );
                }
                assert forall|id: int, l: int|
                    0 <= id < len && level < l < levels@[id] implies (
                #[trigger] ranked@[id]@[l])@.len() == 0 by {
                    assert(before[id]@[l]@.len() == 0);
                }
            }
        }
        level += 1;
    }
    proof {
        assert forall|l: int| 0 <= l implies #[trigger] is_level_filled(
            select,
            pack,
            score,
            *params,
            vectors@,
            dim,
            levels@,
            l,
            ranked@,
        ) by {
            lemma_members_of(levels@, l, len as int);
        }
    }
    let level_count = level_counts(&levels, params.max_level);
    let entry_point: u32 = entry(&levels);
    let nodes = builder_nodes(ranked);
    let hnsw = Hnsw { params: *params, nodes, level_count, entry_point };
    proof {
        let lists = ranked_of(&hnsw);
        assert forall|id: int| 0 <= id < hnsw.nodes@.len() implies is_node_of(
            #[trigger] hnsw.nodes@[id],
            hnsw.nodes@[id].level_neighbors_ranked@,
        ) by {
            assert(lists[id] == hnsw.nodes@[id].level_neighbors_ranked);
        }
        assert(is_graph(select, pack, score, *params, vectors@, dim, levels@, &hnsw));
    }
    Ok(hnsw)
}

/// What [`build_from_exact_knn`] answers: nothing for a partition that the exact path
/// does not cover, and otherwise what [`is_built`] says of the graph or of the error,
/// but for one that says that the kernel declined, which makes it nothing too.
pub open spec fn is_construction<P, Asg, Ent, Sel, Pack, Score>(
    storage: &Partition,
    params: HnswBuildParams,
    kernel_available: bool,
    assign: &Asg,
    entry: &Ent,
    select: &Sel,
    pack: &Pack,
    score: &Score,
    r: Result<Option<Hnsw>, Error>,
) -> bool where
    Asg: Fn(usize) -> Vec<usize>,
    Ent: Fn(&Vec<usize>) -> u32,
    Sel: Fn(Vec<OrderedNode>, usize) -> Vec<OrderedNode>,
    Pack: Fn(&[u16], usize, usize) -> Option<(P, usize)>,
    Score: Fn(&P, &[u16], usize, usize, usize) -> Vec<Single>,
 {
    if is_eligible(storage, &params, kernel_available) && storage.vectors is Some {
        let (vectors, dim) = storage.vectors->0;
        match r {
            Ok(Some(hnsw)) => is_built(
                assign,
                entry,
                select,
                pack,
                score,
                params,
                vectors@,
                dim,
                storage.len,
                Ok(hnsw),
            ),
            Ok(None) => exists|error: Error| #[trigger]
                is_built(
                    assign,
                    entry,
                    select,
                    pack,
                    score,
                    params,
                    vectors@,
                    dim,
                    storage.len,
                    Err(error),
                ) && error is NotSupported,
            Err(error) => is_built(
                assign,
                entry,
                select,
                pack,
                score,
                params,
                vectors@,
                dim,
                storage.len,
                Err(error),
            ) && !(error is NotSupported),
        }
    } else {
        r matches Ok(hnsw) && hnsw is None
    }
}

/// Builds the graph of a partition from exact neighbour tables, or answers
/// `Ok(None)` if this partition is not one the path can serve, in which case the
/// caller must fall back to incremental insertion.
///
/// Runs the neighbour tables on the calling thread, and spreads only the per-node
/// edge selection over the current thread pool.
///
/// `kernel_available` says whether there is a scoring kernel on this host; one
/// that declines all the same is no error either.
pub fn build_from_exact_knn<P, Asg, Ent, Sel, Pack, Score>(
    storage: &Partition,
    params: &HnswBuildParams,
    kernel_available: bool,
    assign: &Asg,
    entry: &Ent,
    select: &Sel,
    pack: &Pack,
    score: &Score,
) -> (r: Result<Option<Hnsw>, Error>) where
    Asg: Fn(usize) -> Vec<usize>,
    Ent: Fn(&Vec<usize>) -> u32,
    Sel: Fn(Vec<OrderedNode>, usize) -> Vec<OrderedNode> + Sync,
    Pack: Fn(&[u16], usize, usize) -> Option<(P, usize)>,
    Score: Fn(&P, &[u16], usize, usize, usize) -> Vec<Single>,

    requires
        is_eligible(storage, params, kernel_available) && storage.vectors is Some ==> {
            &&& 2 * params.m <= usize::MAX
            &&& layering_ready(assign, entry, storage.len)
            &&& selector_ready(select, storage.len as int)
            &&& kernel_ready(pack, score)
        },
    ensures
        is_construction(
            storage,
            *params,
            kernel_available,
            assign,
            entry,
            select,
            pack,
            score,
            r,
        ),
{
    match eligible_vectors(storage, params, kernel_available) {
        None => Ok(None),
        Some((vectors, dim)) => {
            match build(
                storage.len,
                params,
                vectors,
                dim,
                assign,
                entry,
                select,
                pack,
                score,
            ) {
                Ok(hnsw) => Ok(Some(hnsw)),
                // Everything this path knows how to check was checked, so a
                // kernel that still declines is something it does not know
                // about.
                Err(error) => if matches!(error, Error::NotSupported { .. }) {
                    Ok(None)
                } else {
                    Err(error)
                },
            }
        },
    }
}

} // verus!
