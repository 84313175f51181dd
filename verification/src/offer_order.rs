//! The order in which candidates are offered does not decide what comes out.
use crate::error::Error;
use crate::heap::Candidate;
use crate::knn::{is_admissible, lemma_row_fits, lemma_slot_owner, ranks_before, ExactKnn};
use crate::single::lemma_one_minus_reverses;
use crate::top_k::{
    admissible_offers, is_nearest_first, is_row_of, is_top_of, lists_heap_at, TopKHeaps,
};
use vstd::multiset::Multiset;
use vstd::prelude::*;
use vstd::relations::{sorted_by, total_ordering};

verus! {

/// Those of some offers that can be kept and whose dot product is of rank `bar` at
/// least.
pub open spec fn offers_above(offers: Multiset<Candidate>, bar: int) -> Multiset<Candidate> {
    offers.filter(|c: Candidate| is_admissible(c.dot) && c.dot.rank() >= bar)
}

/// Whether no two equal dot products of some offers stand on either side of the `k`-th
/// place.
pub open spec fn offers_part(offers: Multiset<Candidate>, k: int) -> bool {
    exists|bar: int| (#[trigger] offers_above(offers, bar)).len() == k
}

/// A part of as many is the whole.
proof fn lemma_part(a: Multiset<Candidate>, b: Multiset<Candidate>)
    requires
        a.subset_of(b),
    ensures
        a.len() <= b.len(),
        a.len() == b.len() ==> a == b,
{
    broadcast use vstd::multiset::group_multiset_axioms;

    let rest = b.sub(a);
    assert(rest.len() == b.len() - a.len());
    if a.len() == b.len() {
        assert forall|c: Candidate| a.count(c) == b.count(c) by {
            assert(rest.count(c) <= rest.len());
        }
        assert(a =~= b);
    }
}

/// How many offers can be kept at all does not depend on their order.
proof fn lemma_admissible_counted(offers: Seq<Candidate>)
    ensures
        admissible_offers(offers) == offers.to_multiset().filter(
            |c: Candidate| is_admissible(c.dot),
        ).len(),
    decreases offers.len(),
{
    broadcast use vstd::multiset::group_multiset_axioms;

    let can = |c: Candidate| is_admissible(c.dot);
    offers.to_multiset_ensures();
    if offers.len() > 0 {
        let (rest, c) = (offers.drop_last(), offers.last());
        lemma_admissible_counted(rest);
        rest.to_multiset_ensures();
        assert(rest.push(c) =~= offers);
        if can(c) {
            assert(offers.to_multiset().filter(can) =~= rest.to_multiset().filter(can).insert(c));
        } else {
            assert(offers.to_multiset().filter(can) =~= rest.to_multiset().filter(can));
        }
    } else {
        assert(offers.to_multiset().filter(can) =~= Multiset::empty());
    }
}

/// Where the offers part at the `k`-th place, a top `k` of them is what stands above.
proof fn lemma_parted_at(heap: Seq<Candidate>, offers: Seq<Candidate>, k: int, bar: int)
    requires
        is_top_of(heap, offers, k),
        heap.len() == k,
        offers_above(offers.to_multiset(), bar).len() == k,
    ensures
        heap.to_multiset() == offers_above(offers.to_multiset(), bar),
{
    broadcast use vstd::multiset::group_multiset_axioms;

    let (held, above) = (heap.to_multiset(), offers_above(offers.to_multiset(), bar));
    heap.to_multiset_ensures();
    if exists|p: int| 0 <= p < heap.len() && (#[trigger] heap[p]).dot.rank() < bar {
        let p = choose|p: int| 0 <= p < heap.len() && (#[trigger] heap[p]).dot.rank() < bar;
        assert(is_admissible(heap[p].dot));
        assert forall|c: Candidate| above.count(c) <= held.count(c) by {
            if held.count(c) < offers.to_multiset().count(c) {
                assert(!c.dot.greater(heap[p].dot));
            }
        }
        lemma_part(above, held);
    } else {
        assert forall|c: Candidate| held.count(c) <= above.count(c) by {
            assert(held.count(c) <= offers.to_multiset().count(c));
            vstd::seq_lib::to_multiset_contains(heap, c);
            if held.count(c) > 0 {
                let p = choose|p: int| 0 <= p < heap.len() && heap[p] == c;
                assert(is_admissible(heap[p].dot));
            }
        }
        lemma_part(held, above);
    }
}

/// No place of one top `k`, nearest first, beats that place of another one of the
/// same offers.
proof fn lemma_no_better(
    a: Seq<Candidate>,
    b: Seq<Candidate>,
    offers: Multiset<Candidate>,
    r: int,
)
    requires
        a.len() == b.len(),
        0 <= r < a.len(),
        is_nearest_first(a),
        is_nearest_first(b),
        forall|p: int| 0 <= p < a.len() ==> is_admissible((#[trigger] a[p]).dot),
        forall|p: int| 0 <= p < b.len() ==> is_admissible((#[trigger] b[p]).dot),
        a.to_multiset().subset_of(offers),
        forall|c: Candidate, p: int|
            #![trigger offers.count(c), b[p]]
            0 <= p < b.len() && b.to_multiset().count(c) < offers.count(c) ==> !c.dot.greater(
                b[p].dot,
            ),
    ensures
        a[r].dot.rank() <= b[r].dot.rank(),
{
    broadcast use vstd::multiset::group_multiset_axioms;

    if a[r].dot.rank() > b[r].dot.rank() {
        let (front, less) = (a.take(r + 1), b.take(r));
        vstd::seq_lib::lemma_multiset_commutative(front, a.skip(r + 1));
        vstd::seq_lib::lemma_multiset_commutative(less, b.skip(r));
        assert(a =~= front + a.skip(r + 1));
        assert(b =~= less + b.skip(r));
        assert forall|c: Candidate| front.to_multiset().count(c) <= less.to_multiset().count(c) by {
            vstd::seq_lib::to_multiset_contains(front, c);
            if front.to_multiset().count(c) > 0 {
                let p = choose|p: int| 0 <= p < front.len() && front[p] == c;
                assert(a[p] == c);
                assert(c.dot.rank() >= a[r].dot.rank()) by {
                    if p < r {
                        assert(!ranks_before(a[r].dot, a[r].id as int, a[p].dot, a[p].id as int));
                    }
                }
                assert(is_admissible(b[r].dot) && is_admissible(a[p].dot));
                assert(c.dot.greater(b[r].dot));
                assert(b.to_multiset().count(c) >= offers.count(c));
                vstd::seq_lib::to_multiset_contains(b.skip(r), c);
                if b.skip(r).contains(c) {
                    let q = choose|q: int| 0 <= q < b.skip(r).len() && b.skip(r)[q] == c;
                    assert(b[r + q] == c);
                    if q > 0 {
                        assert(!ranks_before(
                            b[r + q].dot,
                            b[r + q].id as int,
                            b[r].dot,
                            b[r].id as int,
                        ));
                    }
                }
                assert(a.to_multiset().count(c) <= offers.count(c));
            }
        }
        lemma_part(front.to_multiset(), less.to_multiset());
        front.to_multiset_ensures();
        less.to_multiset_ensures();
    }
}

/// Two rows of the same candidates, nearest first, are one.
proof fn lemma_one_order(a: Seq<Candidate>, b: Seq<Candidate>)
    requires
        a.to_multiset() == b.to_multiset(),
        is_nearest_first(a),
        is_nearest_first(b),
    ensures
        a == b,
{
    let leq = |x: Candidate, y: Candidate|
        !ranks_before(y.dot, y.id as int, x.dot, x.id as int);
    assert forall|x: Candidate, y: Candidate| #[trigger] leq(x, y) && #[trigger] leq(
        y,
        x,
    ) implies x == y by {
        assert(x.dot.bits == y.dot.bits);
    }
    assert(total_ordering(leq));
    assert(sorted_by(a, leq));
    assert(sorted_by(b, leq));
    vstd::seq_lib::lemma_sorted_unique(a, b, leq);
}

/// What two heaps that were made the same offers list of one node.
proof fn lemma_node_alike(
    a: &TopKHeaps,
    b: &TopKHeaps,
    one: &ExactKnn,
    other: &ExactKnn,
    node: int,
)
    requires
        a.holds_offers(),
        b.holds_offers(),
        a.k == b.k,
        a.n() == b.n(),
        0 <= node < a.n(),
        a.offers@[node].to_multiset() == b.offers@[node].to_multiset(),
        a.heap_of(node).len() == a.k,
        b.heap_of(node).len() == b.k,
        one.k == a.k,
        other.k == a.k,
        lists_heap_at(one.ids@, one.distances@, a.k as int, a.heap_of(node), node),
        lists_heap_at(other.ids@, other.distances@, b.k as int, b.heap_of(node), node),
    ensures
        one.distances_of(node) == other.distances_of(node),
        offers_part(a.offers@[node].to_multiset(), a.k as int) ==> one.ids_of(node)
            == other.ids_of(node),
{
    let k = a.k as int;
    let (left, right) = (a.heap_of(node), b.heap_of(node));
    let offers = a.offers@[node].to_multiset();
    a.lemma_holds_top_of_offers(node);
    b.lemma_holds_top_of_offers(node);
    let x = choose|row: Seq<Candidate>|
        {
            &&& row.to_multiset() == left.to_multiset()
            &&& is_nearest_first(row)
            &&& #[trigger] is_row_of(one.ids_of(node), one.distances_of(node), row)
        };
    let y = choose|row: Seq<Candidate>|
        {
            &&& row.to_multiset() == right.to_multiset()
            &&& is_nearest_first(row)
            &&& #[trigger] is_row_of(other.ids_of(node), other.distances_of(node), row)
        };
    lemma_row_of_top(left, x, offers, a.offers@[node], k);
    lemma_row_of_top(right, y, offers, b.offers@[node], k);
    assert forall|r: int| 0 <= r < k implies one.distances_of(node)[r] == other.distances_of(
        node,
    )[r] by {
        lemma_no_better(x, y, offers, r);
        lemma_no_better(y, x, offers, r);
        assert(one.ids_of(node)[r] == x[r].id && other.ids_of(node)[r] == y[r].id);
        assert(is_admissible(x[r].dot) && is_admissible(y[r].dot));
        lemma_one_minus_reverses(
            x[r].dot,
            y[r].dot,
            one.distances_of(node)[r],
            other.distances_of(node)[r],
        );
    }
    assert(one.distances_of(node) =~= other.distances_of(node));
    if offers_part(offers, k) {
        let bar = choose|bar: int| (#[trigger] offers_above(offers, bar)).len() == k;
        lemma_parted_at(left, a.offers@[node], k, bar);
        lemma_parted_at(right, b.offers@[node], k, bar);
        lemma_one_order(x, y);
        assert(one.ids_of(node) =~= other.ids_of(node));
    }
}

/// What a top `k` says of its candidates in another order.
proof fn lemma_row_of_top(
    heap: Seq<Candidate>,
    row: Seq<Candidate>,
    offers: Multiset<Candidate>,
    made: Seq<Candidate>,
    k: int,
)
    requires
        is_top_of(heap, made, k),
        heap.len() == k,
        made.to_multiset() == offers,
        row.to_multiset() == heap.to_multiset(),
    ensures
        row.len() == k,
        row.to_multiset().subset_of(offers),
        forall|p: int| 0 <= p < row.len() ==> is_admissible((#[trigger] row[p]).dot),
        forall|c: Candidate, p: int|
            #![trigger offers.count(c), row[p]]
            0 <= p < row.len() && row.to_multiset().count(c) < offers.count(c)
                ==> !c.dot.greater(row[p].dot),
{
    heap.to_multiset_ensures();
    row.to_multiset_ensures();
    assert forall|p: int| 0 <= p < row.len() implies heap.contains(#[trigger] row[p]) by {
        assert(row.contains(row[p]));
        vstd::seq_lib::to_multiset_contains(row, row[p]);
        vstd::seq_lib::to_multiset_contains(heap, row[p]);
    }
    assert forall|p: int| 0 <= p < row.len() implies is_admissible((#[trigger] row[p]).dot) by {
        let q = choose|q: int| 0 <= q < heap.len() && heap[q] == row[p];
        assert(is_admissible(heap[q].dot));
    }
    assert forall|c: Candidate, p: int|
        #![trigger offers.count(c), row[p]]
        0 <= p < row.len() && row.to_multiset().count(c) < offers.count(
            c,
        ) implies !c.dot.greater(row[p].dot) by {
        let q = choose|q: int| 0 <= q < heap.len() && heap[q] == row[p];
        assert(!c.dot.greater(heap[q].dot));
    }
    assert forall|c: Candidate| row.to_multiset().count(c) <= offers.count(c) by {
        assert(heap.to_multiset().count(c) <= made.to_multiset().count(c));
    }
}

/// The order in which offers are made does not decide what is listed: heaps that were
/// made the same offers, in whichever order, both give a table or both refuse it with
/// the same error. The tables have the same distances, and a node lists the same
/// neighbours in both unless two of equal score stand on either side of its last
/// place.
pub proof fn lemma_offer_order_is_free(
    a: &TopKHeaps,
    b: &TopKHeaps,
    r: Result<ExactKnn, Error>,
    s: Result<ExactKnn, Error>,
)
    requires
        a.holds_offers(),
        b.holds_offers(),
        a.k == b.k,
        a.n() == b.n(),
        forall|node: int|
            0 <= node < a.n() ==> (#[trigger] a.offers@[node]).to_multiset()
                == b.offers@[node].to_multiset(),
        a.is_listing(r),
        b.is_listing(s),
    ensures
        match (r, s) {
            (Ok(one), Ok(other)) => {
                &&& one.num_nodes == other.num_nodes
                &&& one.k == other.k
                &&& one.distances@ == other.distances@
                &&& forall|node: int|
                    0 <= node < a.n() && offers_part(
                        (#[trigger] a.offers@[node]).to_multiset(),
                        a.k as int,
                    ) ==> one.ids_of(node) == other.ids_of(node)
                &&& (forall|node: int|
                    0 <= node < a.n() ==> offers_part(
                        (#[trigger] a.offers@[node]).to_multiset(),
                        a.k as int,
                    )) ==> one.ids@ == other.ids@
            },
            (Err(e), Err(f)) => e.says(f),
            _ => false,
        },
{
    let (n, k) = (a.n(), a.k as int);
    assert forall|node: int| 0 <= node < n implies (#[trigger] a.heap_of(node)).len()
        == b.heap_of(node).len() by {
        a.lemma_holds_top_of_offers(node);
        b.lemma_holds_top_of_offers(node);
        assert(a.offers@[node].to_multiset() == b.offers@[node].to_multiset());
        lemma_admissible_counted(a.offers@[node]);
        lemma_admissible_counted(b.offers@[node]);
    }
    if r is Ok {
        assert forall|node: int| 0 <= node < n implies (#[trigger] b.heap_of(node)).len() == k by {
            assert(a.heap_of(node).len() == k);
        }
        let (one, other) = (r->Ok_0, s->Ok_0);
        assert forall|node: int| 0 <= node < n implies one.distances_of(node)
            == other.distances_of(node) && (offers_part(
            (#[trigger] a.offers@[node]).to_multiset(),
            k,
        ) ==> one.ids_of(node) == other.ids_of(node)) by {
            assert(a.heap_of(node).len() == k && b.heap_of(node).len() == k);
            assert(lists_heap_at(one.ids@, one.distances@, k, a.heap_of(node), node));
            assert(lists_heap_at(other.ids@, other.distances@, k, b.heap_of(node), node));
            lemma_node_alike(a, b, &one, &other, node);
        }
        assert forall|p: int| 0 <= p < one.distances@.len() implies #[trigger] one.distances@[p]
            == other.distances@[p] by {
            let node = lemma_slot_owner(p, n, k);
            lemma_row_fits(node, n, k);
            assert(a.offers@[node].to_multiset() == b.offers@[node].to_multiset());
            assert(one.distances_of(node)[p - node * k] == one.distances@[p]);
            assert(other.distances_of(node)[p - node * k] == other.distances@[p]);
        }
        assert(one.distances@ =~= other.distances@);
        if forall|node: int|
            0 <= node < n ==> offers_part((#[trigger] a.offers@[node]).to_multiset(), k) {
            assert forall|p: int| 0 <= p < one.ids@.len() implies #[trigger] one.ids@[p]
                == other.ids@[p] by {
                let node = lemma_slot_owner(p, n, k);
                lemma_row_fits(node, n, k);
                assert(a.offers@[node].to_multiset() == b.offers@[node].to_multiset());
                assert(one.ids_of(node)[p - node * k] == one.ids@[p]);
                assert(other.ids_of(node)[p - node * k] == other.ids@[p]);
            }
            assert(one.ids@ =~= other.ids@);
        }
    } else {
        let short = choose|node: int| a.is_first_short(node, r->Err_0);
        assert(a.heap_of(short).len() == b.heap_of(short).len());
        if s is Ok {
            assert(b.heap_of(short).len() == k);
        } else {
            let also = choose|node: int| b.is_first_short(node, s->Err_0);
            assert(a.heap_of(also).len() == b.heap_of(also).len());
            if short < also {
                assert(b.heap_of(short).len() == k);
            }
            if also < short {
                assert(a.heap_of(also).len() == k);
            }
        }
    }
}

} // verus!
