//! The nodes of a layered proximity graph.
use crate::order::{lemma_mapped_count, pack, sorted, unpack, HALF};
use crate::single::{Single, SIGN};
use std::sync::Arc;
use vstd::prelude::*;

verus! {

/// A neighbour and its distance.
#[derive(Clone, Copy, Debug, PartialEq, Eq, Structural)]
pub struct OrderedNode {
    pub id: u32,
    pub dist: Single,
}

/// How a graph is built.
#[derive(Clone, Copy, Debug, PartialEq, Eq, Structural)]
pub struct HnswBuildParams {
    /// The most levels a graph can have.
    pub max_level: u16,
    /// Edges per node on each level above the bottom one, which gets twice as
    /// many.
    pub m: usize,
    /// Candidates considered per node.
    pub ef_construction: usize,
    /// Whether to build from exact neighbour tables where that is possible.
    pub use_exact_knn_construction: bool,
    /// The largest partition to build from exact neighbour tables.
    pub exact_knn_max_partition_size: usize,
}

/// One node of the graph.
#[derive(Clone, Debug)]
pub struct GraphBuilderNode {
    /// Neighbours of each level the node is on.
    pub level_neighbors: Vec<Arc<Vec<u32>>>,
    /// The same with their distances.
    pub level_neighbors_ranked: Vec<Vec<OrderedNode>>,
    /// The neighbours on the bottom level.
    pub bottom_neighbors: Arc<Vec<u32>>,
}

/// A graph and what it was built with.
#[derive(Clone, Debug)]
pub struct Hnsw {
    pub params: HnswBuildParams,
    pub nodes: Vec<GraphBuilderNode>,
    /// How many nodes reach each level.
    pub level_count: Vec<usize>,
    pub entry_point: u32,
}

/// An integer that orders neighbours by id, or else nearest-first; the other of
/// the two settles ties.
#[verifier::opaque]
pub open spec fn node_key(by_id: bool, node: OrderedNode) -> int {
    let near = node.dist.total_rank() + SIGN;
    if by_id {
        node.id * HALF + near
    } else {
        near * HALF + node.id
    }
}

/// Whether neighbours stand in the order of [`node_key`].
pub open spec fn in_order(by_id: bool, nodes: Seq<OrderedNode>) -> bool {
    forall|p: int, q: int|
        0 <= p <= q < nodes.len() ==> node_key(by_id, #[trigger] nodes[p]) <= node_key(
            by_id,
            #[trigger] nodes[q],
        )
}

pub open spec fn ids_of(nodes: Seq<OrderedNode>) -> Seq<u32> {
    nodes.map_values(|node: OrderedNode| node.id)
}

/// The order of [`node_key`] tells any two neighbours apart.
pub proof fn lemma_node_key(by_id: bool, a: OrderedNode, b: OrderedNode)
    ensures
        node_key(by_id, a) == node_key(by_id, b) ==> a == b,
        0 <= node_key(by_id, a) <= u64::MAX,
        by_id && node_key(true, a) <= node_key(true, b) ==> a.id <= b.id,
        by_id && a.id < b.id ==> node_key(true, a) < node_key(true, b),
        by_id && a.id == b.id && node_key(true, a) <= node_key(true, b) ==> a.dist.total_rank()
            <= b.dist.total_rank(),
        !by_id && node_key(false, a) <= node_key(false, b) ==> a.dist.total_rank()
            <= b.dist.total_rank(),
{
    reveal(node_key);
}

/// The neighbours in the order of [`node_key`].
pub fn sorted_nodes(nodes: &Vec<OrderedNode>, by_id: bool) -> (out: Vec<OrderedNode>)
    ensures
        in_order(by_id, out@),
        out@.to_multiset() == nodes@.to_multiset(),
        out@.len() == nodes@.len(),
{
    reveal(node_key);
    let ghost key = |node: OrderedNode| node_key(by_id, node) as u64;
    let mut keys: Vec<u64> = Vec::new();
    let mut i: usize = 0;
    while i < nodes.len()
        invariant
            i <= nodes@.len(),
            keys@.len() == i,
            forall|p: int| 0 <= p < i ==> #[trigger] keys@[p] == node_key(by_id, nodes@[p]),
        decreases nodes@.len() - i,
    {
        reveal(node_key);
        let node: OrderedNode = nodes[i];
        let near: u32 = node.dist.total_key();
        if by_id {
            keys.push(pack(node.id, near));
        } else {
            keys.push(pack(near, node.id));
        }
        i += 1;
    }
    let ghost unsorted = keys@;
    let keys = sorted(keys);
    let mut out: Vec<OrderedNode> = Vec::new();
    i = 0;
    while i < keys.len()
        invariant
            i <= keys@.len(),
            out@.len() == i,
            forall|p: int| 0 <= p < i ==> node_key(by_id, #[trigger] out@[p]) == keys@[p],
        decreases keys@.len() - i,
    {
        reveal(node_key);
        let (first, second) = unpack(keys[i]);
        if by_id {
            out.push(OrderedNode { id: first, dist: Single::from_total_key(second) });
        } else {
            out.push(OrderedNode { id: second, dist: Single::from_total_key(first) });
        }
        i += 1;
    }
    proof {
        assert(unsorted =~= nodes@.map_values(key));
        assert(keys@ =~= out@.map_values(key));
        assert forall|x: OrderedNode, y: OrderedNode| #[trigger] key(x) == #[trigger] key(
            y,
        ) implies x == y by {
            lemma_node_key(by_id, x, y);
            lemma_node_key(by_id, y, x);
        }
        assert forall|node: OrderedNode|
            out@.to_multiset().count(node) == nodes@.to_multiset().count(node) by {
            lemma_mapped_count(out@, key, node);
            lemma_mapped_count(nodes@, key, node);
        }
        assert(out@.to_multiset() =~= nodes@.to_multiset());
    }
    out
}

} // verus!
