//! Every node's bounded top-k, live simultaneously.
use crate::arrival::{
    candidates, lemma_filter_holds, lemma_filter_last, lemma_filter_none, lemma_filter_within,
    numbers, picks_of, with_offered, with_picked,
};
use crate::error::Error;
use crate::heap::{
    is_heap, lemma_pushed, lemma_replaced, lemma_root_is_least, push, pushed, replace_root,
    replaced, Candidate,
};
use crate::knn::{is_admissible, is_exact_at, is_exact_row, lemma_row_fits, ranks_before, ExactKnn};
use crate::order::{lemma_mapped_count, pack, sorted, unpack, HALF};
use crate::single::{Single, INFINITE, NEG_INFINITY, SIGN};
use crate::text::{append_decimal, decimal};
use vstd::prelude::*;
use vstd::string::StringExecFns;

verus! {

/// Dot products by the pair of nodes they belong to.
pub type Scores = Map<(int, int), Single>;

/// Whether every candidate scored has an id of 32 bits.
pub open spec fn ids_fit(scores: Scores) -> bool {
    forall|x: (int, int)| #[trigger] scores.contains_key(x) ==> 0 <= x.1 <= u32::MAX
}

/// The nodes that can be neighbours of `node` by the dot products in `scores`.
pub open spec fn admissible(scores: Scores, node: int) -> Set<int> {
    Set::new(
        |id: int| scores.contains_key((node, id)) && is_admissible(scores[(node, id)]),
    )
}

/// Whether a neighbour list holds node `id`.
pub open spec fn lists(heap: Seq<Candidate>, id: int) -> bool {
    exists|p: int| 0 <= p < heap.len() && (#[trigger] heap[p]).id == id
}

/// Whether `ids` are those of the candidates in `heap`.
pub open spec fn lists_all(ids: Seq<u32>, heap: Seq<Candidate>) -> bool {
    &&& ids.len() == heap.len()
    &&& forall|id: u32| #[trigger] ids.contains(id) <==> lists(heap, id as int)
}

pub open spec fn ids_distinct(heap: Seq<Candidate>) -> bool {
    forall|p: int, q: int|
        0 <= p < q < heap.len() ==> (#[trigger] heap[p]).id != (#[trigger] heap[q]).id
}

/// Whether `heap` holds the top `k` of what node `node` was offered in `seen`:
/// everything that beats negative infinity while there is room, and nothing
/// left out that beats the weakest neighbour once there is none.
#[verifier::opaque]
pub open spec fn holds_top(
    heap: Seq<Candidate>,
    k: int,
    threshold: Single,
    seen: Scores,
    node: int,
) -> bool {
    &&& heap.len() <= k
    &&& is_heap(heap)
    &&& ids_distinct(heap)
    &&& forall|p: int|
        0 <= p < heap.len() ==> (#[trigger] heap[p]).dot.rank() > -INFINITE && seen.contains_key(
            (node, heap[p].id as int),
        ) && seen[(node, heap[p].id as int)] == heap[p].dot
    &&& threshold == (if heap.len() == k {
        heap[0].dot
    } else {
        Single { bits: NEG_INFINITY }
    })
    &&& forall|id: int|
        (#[trigger] seen.contains_key((node, id))) && !lists(heap, id) ==> !seen[(
            node,
            id,
        )].greater(threshold)
}

/// What a candidate has to beat to enter a heap of at most `k`: its root once it is
/// full, negative infinity while there is room.
pub open spec fn bar(heap: Seq<Candidate>, k: int) -> Single {
    if heap.len() == k {
        heap[0].dot
    } else {
        Single { bits: NEG_INFINITY }
    }
}

/// What becomes of a heap of at most `k` that is offered `c`: it takes `c` in if
/// that beats the bar, and lets go of its root if there is no room.
pub open spec fn admitted(heap: Seq<Candidate>, k: int, c: Candidate) -> Seq<Candidate> {
    if !c.dot.greater(bar(heap, k)) {
        heap
    } else if heap.len() < k {
        pushed(heap, c)
    } else {
        replaced(heap, c)
    }
}

/// What a heap of at most `k` holds of `offers`, made one after the other.
pub open spec fn stored(offers: Seq<Candidate>, k: int) -> Seq<Candidate>
    decreases offers.len(),
{
    if offers.len() == 0 {
        seq![]
    } else {
        admitted(stored(offers.drop_last(), k), k, offers.last())
    }
}

/// What `node` keeps of the candidates `ids`, offered one after the other at their
/// dot products in `scores`.
pub open spec fn kept(ids: Seq<int>, scores: Scores, node: int, k: int) -> Seq<Candidate> {
    stored(candidates(ids, node, |x: (int, int)| scores[x]), k)
}

/// The dot product at which `id` was offered.
pub open spec fn dot_of(offers: Seq<Candidate>, id: int) -> Single {
    offers[choose|p: int| 0 <= p < offers.len() && (#[trigger] offers[p]).id == id].dot
}

/// The dot products of all offers to the nodes, by the node and the candidate.
pub open spec fn scores_of(offers: Seq<Seq<Candidate>>) -> Scores {
    Map::new(
        |x: (int, int)| 0 <= x.0 < offers.len() && lists(offers[x.0], x.1),
        |x: (int, int)| dot_of(offers[x.0], x.1),
    )
}

/// The candidates of offers, in the order they were made.
pub open spec fn offered_ids(offers: Seq<Candidate>) -> Seq<int> {
    Seq::new(offers.len(), |p: int| offers[p].id as int)
}

/// The candidates that each node was offered, in the order they were.
pub open spec fn arrivals(offers: Seq<Seq<Candidate>>) -> Seq<Seq<int>> {
    Seq::new(offers.len(), |x: int| offered_ids(offers[x]))
}

/// Whether no node was offered a candidate twice.
pub open spec fn offered_once(offers: Seq<Seq<Candidate>>) -> bool {
    forall|x: int| 0 <= x < offers.len() ==> ids_distinct(#[trigger] offers[x])
}

/// `before` and, besides, the pairs that `added` picks at the scores that `value`
/// gives.
pub open spec fn with_pairs(
    before: Scores,
    added: spec_fn((int, int)) -> bool,
    value: spec_fn((int, int)) -> Single,
) -> Scores {
    Map::new(
        |x: (int, int)| before.contains_key(x) || added(x),
        |x: (int, int)|
            if before.contains_key(x) {
                before[x]
            } else {
                value(x)
            },
    )
}

/// What was offered once stands at the dot product it was offered at.
proof fn lemma_dot_of(offers: Seq<Candidate>, p: int)
    requires
        ids_distinct(offers),
        0 <= p < offers.len(),
    ensures
        lists(offers, offers[p].id as int),
        dot_of(offers, offers[p].id as int) == offers[p].dot,
{
    let id = offers[p].id as int;
    let q = choose|q: int| 0 <= q < offers.len() && (#[trigger] offers[q]).id == id;
    assert(offers[p].id == id);
    assert(offers[q].id == id);
}

/// What a node keeps of its offers, each made once, goes by their scores.
proof fn lemma_kept_of_offers(offers: Seq<Seq<Candidate>>, node: int, k: int)
    requires
        offered_once(offers),
        0 <= node < offers.len(),
    ensures
        kept(arrivals(offers)[node], scores_of(offers), node, k) == stored(offers[node], k),
{
    let own = offers[node];
    let scores = scores_of(offers);
    assert forall|p: int| 0 <= p < own.len() implies scores[(node, (#[trigger] own[p]).id as int)]
        == own[p].dot by {
        lemma_dot_of(own, p);
    }
    assert(candidates(offered_ids(own), node, |x: (int, int)| scores[x]) =~= own);
}

/// Whether `next` holds the offers `own` to node `x` and, besides, those of `run`,
/// which are the ones that `added` has for it.
spec fn has_grown(
    own: Seq<Candidate>,
    next: Seq<Candidate>,
    run: Seq<int>,
    added: spec_fn((int, int)) -> bool,
    value: spec_fn((int, int)) -> Single,
    x: int,
) -> bool {
    &&& ids_distinct(next)
    &&& offered_ids(next) == offered_ids(own) + run
    &&& forall|id: int|
        {
            &&& #[trigger] lists(next, id) <==> lists(own, id) || added((x, id))
            &&& lists(own, id) ==> dot_of(next, id) == dot_of(own, id)
            &&& added((x, id)) ==> dot_of(next, id) == value((x, id))
        }
}

/// Offers of candidates that a node was not offered yet: the scores and the arrivals
/// grow by them.
pub proof fn lemma_offers_grow(
    offers: Seq<Seq<Candidate>>,
    lo: int,
    hi: int,
    pick: spec_fn((int, int)) -> bool,
    value: spec_fn((int, int)) -> Single,
    added: spec_fn((int, int)) -> bool,
)
    requires
        0 <= lo,
        hi <= u32::MAX,
        offered_once(offers),
        forall|x: (int, int)| #[trigger]
            added(x) <==> 0 <= x.0 < offers.len() && lo <= x.1 < hi && pick(x),
        forall|x: (int, int)| added(x) ==> !#[trigger] scores_of(offers).contains_key(x),
    ensures
        offered_once(with_offered(offers, lo, hi, pick, value)),
        scores_of(with_offered(offers, lo, hi, pick, value)) == with_pairs(
            scores_of(offers),
            added,
            value,
        ),
        arrivals(with_offered(offers, lo, hi, pick, value)) == with_picked(
            arrivals(offers),
            lo,
            hi,
            pick,
        ),
{
    let next = with_offered(offers, lo, hi, pick, value);
    let (before, after) = (scores_of(offers), scores_of(next));
    let grown = with_pairs(before, added, value);
    let runs = |x: int| numbers(lo, hi).filter(picks_of(pick, x));
    assert forall|x: int| 0 <= x < offers.len() implies #[trigger] has_grown(
        offers[x],
        next[x],
        runs(x),
        added,
        value,
        x,
    ) by {
        lemma_node_grows(offers, lo, hi, pick, value, added, x);
    }
    assert forall|x: int| 0 <= x < next.len() implies ids_distinct(#[trigger] next[x]) by {
        assert(has_grown(offers[x], next[x], runs(x), added, value, x));
    }
    assert forall|x: (int, int)| #[trigger] after.dom().contains(x) <==> grown.dom().contains(
        x,
    ) by {
        if 0 <= x.0 < offers.len() {
            assert(has_grown(offers[x.0], next[x.0], runs(x.0), added, value, x.0));
            assert(lists(next[x.0], x.1) <==> lists(offers[x.0], x.1) || added((x.0, x.1)));
            assert((x.0, x.1) == x);
        }
    }
    assert(after.dom() =~= grown.dom());
    assert forall|x: (int, int)| #[trigger] after.contains_key(x) implies after[x] == grown[x] by {
        assert(has_grown(offers[x.0], next[x.0], runs(x.0), added, value, x.0));
        assert(lists(next[x.0], x.1));
        assert((x.0, x.1) == x);
    }
    assert(after =~= grown);
    assert(arrivals(next) =~= with_picked(arrivals(offers), lo, hi, pick)) by {
        assert forall|x: int| 0 <= x < offers.len() implies arrivals(next)[x] == with_picked(
            arrivals(offers),
            lo,
            hi,
            pick,
        )[x] by {
            assert(has_grown(offers[x], next[x], runs(x), added, value, x));
        }
    }
}

/// [`lemma_offers_grow`], of one node.
proof fn lemma_node_grows(
    offers: Seq<Seq<Candidate>>,
    lo: int,
    hi: int,
    pick: spec_fn((int, int)) -> bool,
    value: spec_fn((int, int)) -> Single,
    added: spec_fn((int, int)) -> bool,
    x: int,
)
    requires
        0 <= lo,
        hi <= u32::MAX,
        offered_once(offers),
        forall|x: (int, int)| #[trigger]
            added(x) <==> 0 <= x.0 < offers.len() && lo <= x.1 < hi && pick(x),
        forall|x: (int, int)| added(x) ==> !#[trigger] scores_of(offers).contains_key(x),
        0 <= x < offers.len(),
    ensures
        has_grown(
            offers[x],
            with_offered(offers, lo, hi, pick, value)[x],
            numbers(lo, hi).filter(picks_of(pick, x)),
            added,
            value,
            x,
        ),
{
    let own = offers[x];
    let run = numbers(lo, hi).filter(picks_of(pick, x));
    let more = candidates(run, x, value);
    let next = with_offered(offers, lo, hi, pick, value)[x];
    lemma_filter_holds(lo, hi, picks_of(pick, x));
    lemma_filter_within(lo, hi, picks_of(pick, x));
    assert(next == own + more);
    assert forall|p: int| 0 <= p < run.len() implies (#[trigger] more[p]).id == run[p] && added(
        (x, run[p]),
    ) && !lists(own, run[p]) by {
        assert(pick((x, run[p])));
        assert(!scores_of(offers).contains_key((x, run[p])));
    }
    assert(ids_distinct(own));
    assert forall|p: int, q: int| 0 <= p < q < next.len() implies (#[trigger] next[p]).id != (
    #[trigger] next[q]).id by {
        if q >= own.len() {
            assert(next[q] == more[q - own.len()]);
            if p >= own.len() {
                assert(next[p] == more[p - own.len()]);
                assert(run[p - own.len()] < run[q - own.len()]);
            } else {
                assert(next[p] == own[p]);
                assert(!lists(own, run[q - own.len()]));
            }
        }
    }
    assert forall|p: int| 0 <= p < next.len() implies #[trigger] offered_ids(next)[p] == (
    offered_ids(own) + run)[p] by {
        if p >= own.len() {
            assert(next[p] == more[p - own.len()]);
        }
    }
    assert(offered_ids(next) =~= offered_ids(own) + run);
    assert forall|id: int|
        {
            &&& #[trigger] lists(next, id) <==> lists(own, id) || added((x, id))
            &&& lists(own, id) ==> dot_of(next, id) == dot_of(own, id)
            &&& added((x, id)) ==> dot_of(next, id) == value((x, id))
        } by {
        if lists(next, id) {
            let p = choose|p: int| 0 <= p < next.len() && (#[trigger] next[p]).id == id;
            if p < own.len() {
                assert(own[p].id == id);
            } else {
                assert(next[p] == more[p - own.len()]);
                assert(run[p - own.len()] == id);
            }
        }
        if lists(own, id) {
            let p = choose|p: int| 0 <= p < own.len() && (#[trigger] own[p]).id == id;
            assert(next[p].id == id);
            lemma_dot_of(own, p);
            lemma_dot_of(next, p);
        }
        if added((x, id)) {
            assert(picks_of(pick, x)(id));
            assert(run.contains(id));
            let p = choose|p: int| 0 <= p < run.len() && run[p] == id;
            assert(more[p].id == id);
            assert(next[own.len() + p] == more[p]);
            lemma_dot_of(next, own.len() + p);
        }
    }
}

/// Offering a candidate keeps a heap one, and never lowers the bar.
pub proof fn lemma_admitted(heap: Seq<Candidate>, k: int, c: Candidate)
    requires
        is_heap(heap),
        heap.len() <= k,
        0 < k,
    ensures
        is_heap(admitted(heap, k, c)),
        admitted(heap, k, c).len() <= k,
        !bar(heap, k).is_nan(),
        bar(heap, k).rank() <= bar(admitted(heap, k, c), k).rank(),
{
    let next = admitted(heap, k, c);
    if heap.len() == k {
        assert(!heap[0].dot.is_nan());
    }
    if c.dot.greater(bar(heap, k)) {
        if heap.len() < k {
            lemma_pushed(heap, c);
            assert(!next[0].dot.is_nan());
        } else {
            lemma_replaced(heap, c);
            let swapped = heap.update(0, c);
            next.to_multiset_ensures();
            swapped.to_multiset_ensures();
            assert(next.contains(next[0]));
            vstd::seq_lib::to_multiset_contains(next, next[0]);
            vstd::seq_lib::to_multiset_contains(swapped, next[0]);
            let q = choose|q: int| 0 <= q < swapped.len() && swapped[q] == next[0];
            if q > 0 {
                lemma_root_is_least(heap, q);
            }
        }
    }
}

/// What a heap holds of its offers is a heap of at most `k`.
pub proof fn lemma_stored_is_heap(offers: Seq<Candidate>, k: int)
    requires
        0 < k,
    ensures
        is_heap(stored(offers, k)),
        stored(offers, k).len() <= k,
        !bar(stored(offers, k), k).is_nan(),
    decreases offers.len(),
{
    if offers.len() > 0 {
        lemma_stored_is_heap(offers.drop_last(), k);
        lemma_admitted(stored(offers.drop_last(), k), k, offers.last());
    }
    let heap = stored(offers, k);
    if heap.len() == k {
        assert(!heap[0].dot.is_nan());
    }
}

/// Offers that are made one after the other, with one more.
pub proof fn lemma_stored_next(offers: Seq<Candidate>, c: Candidate, k: int)
    ensures
        stored(offers.push(c), k) == admitted(stored(offers, k), k, c),
{
    assert(offers.push(c).drop_last() =~= offers);
}

/// Taking in one more of a run of candidates, if it is picked.
proof fn lemma_stored_picked(
    before: Seq<Candidate>,
    lo: int,
    hi: int,
    picked: spec_fn(int) -> bool,
    node: int,
    value: spec_fn((int, int)) -> Single,
    k: int,
)
    requires
        lo <= hi,
    ensures
        ({
            let now = before + candidates(numbers(lo, hi + 1).filter(picked), node, value);
            let then = before + candidates(numbers(lo, hi).filter(picked), node, value);
            stored(now, k) == if picked(hi) {
                admitted(
                    stored(then, k),
                    k,
                    Candidate { dot: value((node, hi)), id: hi as u32 },
                )
            } else {
                stored(then, k)
            }
        }),
{
    let short = numbers(lo, hi).filter(picked);
    lemma_filter_last(lo, hi + 1, picked);
    if picked(hi) {
        let c = Candidate { dot: value((node, hi)), id: hi as u32 };
        assert(before + candidates(short.push(hi), node, value) =~= (before + candidates(
            short,
            node,
            value,
        )).push(c));
        lemma_stored_next(before + candidates(short, node, value), c, k);
    }
}

/// Leaving out candidates that do not beat a bar that was once there changes
/// nothing: it only rises.
proof fn lemma_stored_filtered(
    before: Seq<Candidate>,
    lo: int,
    hi: int,
    all: spec_fn(int) -> bool,
    picked: spec_fn(int) -> bool,
    node: int,
    value: spec_fn((int, int)) -> Single,
    k: int,
    once: Single,
)
    requires
        0 < k,
        lo <= hi,
        !once.is_nan(),
        bar(stored(before, k), k).rank() >= once.rank(),
        forall|id: int| lo <= id < hi && #[trigger] picked(id) ==> all(id),
        forall|id: int|
            lo <= id < hi && #[trigger] all(id) && !picked(id) ==> !value((node, id)).greater(once),
    ensures
        stored(before + candidates(numbers(lo, hi).filter(all), node, value), k) == stored(
            before + candidates(numbers(lo, hi).filter(picked), node, value),
            k,
        ),
        bar(
            stored(before + candidates(numbers(lo, hi).filter(all), node, value), k),
            k,
        ).rank() >= once.rank(),
    decreases hi - lo,
{
    if lo == hi {
        assert forall|id: int| lo <= id < hi implies !#[trigger] all(id) by {}
        assert forall|id: int| lo <= id < hi implies !#[trigger] picked(id) by {}
        lemma_filter_none(lo, hi, all);
        lemma_filter_none(lo, hi, picked);
        assert(before + candidates(Seq::<int>::empty(), node, value) =~= before);
    } else {
        let last = hi - 1;
        lemma_stored_filtered(before, lo, last, all, picked, node, value, k, once);
        lemma_stored_picked(before, lo, last, all, node, value, k);
        lemma_stored_picked(before, lo, last, picked, node, value, k);
        let offers = before + candidates(numbers(lo, last).filter(all), node, value);
        let heap = stored(offers, k);
        let c = Candidate { dot: value((node, last)), id: last as u32 };
        lemma_stored_is_heap(offers, k);
        lemma_admitted(heap, k, c);
        assert(all(last) || !picked(last));
        assert(all(last) && !picked(last) ==> !c.dot.greater(bar(heap, k)));
    }
}

/// Leaving out candidates of each node that do not beat a bar that was once there
/// changes nothing for any of them.
pub proof fn lemma_offered_filtered(
    before: Seq<Seq<Candidate>>,
    bars: Seq<Single>,
    lo: int,
    hi: int,
    picked: spec_fn((int, int)) -> bool,
    all: spec_fn((int, int)) -> bool,
    value: spec_fn((int, int)) -> Single,
    k: int,
)
    requires
        0 < k,
        lo <= hi,
        before.len() == bars.len(),
        forall|x: int|
            0 <= x < before.len() ==> #[trigger] bars[x] == bar(stored(before[x], k), k),
        forall|y: (int, int)|
            0 <= y.0 < before.len() && lo <= y.1 < hi && #[trigger] picked(y) ==> all(y),
        forall|y: (int, int)|
            0 <= y.0 < before.len() && lo <= y.1 < hi && #[trigger] all(y) && !picked(y)
                ==> !value(y).greater(bars[y.0]),
    ensures
        forall|x: int|
            0 <= x < before.len() ==> stored(
                #[trigger] with_offered(before, lo, hi, all, value)[x],
                k,
            ) == stored(with_offered(before, lo, hi, picked, value)[x], k),
{
    assert forall|x: int| 0 <= x < before.len() implies stored(
        #[trigger] with_offered(before, lo, hi, all, value)[x],
        k,
    ) == stored(with_offered(before, lo, hi, picked, value)[x], k) by {
        let (a, p) = (picks_of(all, x), picks_of(picked, x));
        assert(bars[x] == bar(stored(before[x], k), k));
        lemma_stored_is_heap(before[x], k);
        assert forall|id: int| lo <= id < hi && #[trigger] p(id) implies a(id) by {
            assert(picked((x, id)));
        }
        assert forall|id: int| lo <= id < hi && #[trigger] a(id) && !p(id) implies !value(
            (x, id),
        ).greater(bars[x]) by {
            assert(all((x, id)));
        }
        lemma_stored_filtered(before[x], lo, hi, a, p, x, value, k, bars[x]);
    }
}

/// How many of some offers can be kept at all: those that beat negative infinity.
pub open spec fn admissible_offers(offers: Seq<Candidate>) -> nat
    decreases offers.len(),
{
    if offers.len() == 0 {
        0
    } else {
        let rest = admissible_offers(offers.drop_last());
        if is_admissible(offers.last().dot) {
            rest + 1
        } else {
            rest
        }
    }
}

/// Whether `heap` is a top `k` of `offers`: it holds `k` of them, or all that can be
/// kept where those are fewer, each as often as it was offered at most; and no offer
/// left out beats one that it holds.
pub open spec fn is_top_of(heap: Seq<Candidate>, offers: Seq<Candidate>, k: int) -> bool {
    &&& heap.len() == if admissible_offers(offers) < k {
        admissible_offers(offers) as int
    } else {
        k
    }
    &&& forall|c: Candidate| #[trigger]
        heap.to_multiset().count(c) <= offers.to_multiset().count(c)
    &&& forall|p: int| 0 <= p < heap.len() ==> is_admissible((#[trigger] heap[p]).dot)
    &&& forall|c: Candidate, p: int|
        #![trigger offers.to_multiset().count(c), heap[p]]
        0 <= p < heap.len() && heap.to_multiset().count(c) < offers.to_multiset().count(c)
            ==> !c.dot.greater(heap[p].dot)
}

/// Whether no offer left out of a heap beats negative infinity.
pub open spec fn leaves_nothing(heap: Seq<Candidate>, offers: Seq<Candidate>) -> bool {
    forall|c: Candidate|
        heap.to_multiset().count(c) < #[trigger] offers.to_multiset().count(c) ==> !is_admissible(
            c.dot,
        )
}

proof fn lemma_last_counted(offers: Seq<Candidate>)
    requires
        offers.len() > 0,
    ensures
        offers.to_multiset() == offers.drop_last().to_multiset().insert(offers.last()),
{
    offers.drop_last().to_multiset_ensures();
    assert(offers.drop_last().push(offers.last()) =~= offers);
}

/// Which of its offers a heap holds, whatever they are and in whichever order they
/// were made, the same one more than once among them: a top `k`.
pub proof fn lemma_stored_is_top(offers: Seq<Candidate>, k: int)
    requires
        0 < k,
    ensures
        is_top_of(stored(offers, k), offers, k),
        stored(offers, k).len() < k ==> leaves_nothing(stored(offers, k), offers),
    decreases offers.len(),
{
    broadcast use vstd::multiset::group_multiset_axioms;

    let heap = stored(offers, k);
    if offers.len() > 0 {
        let (rest, c) = (offers.drop_last(), offers.last());
        let before = stored(rest, k);
        lemma_stored_is_top(rest, k);
        lemma_stored_is_heap(rest, k);
        lemma_last_counted(offers);
        if !c.dot.greater(bar(before, k)) {
            lemma_left_out(before, rest, offers, k, c);
        } else if before.len() < k {
            lemma_taken_in(before, rest, offers, k, c);
        } else {
            lemma_taken_for_root(before, rest, offers, k, c);
        }
    } else {
        offers.to_multiset_ensures();
        heap.to_multiset_ensures();
    }
}

/// An offer that does not beat the bar is left out.
proof fn lemma_left_out(
    heap: Seq<Candidate>,
    rest: Seq<Candidate>,
    offers: Seq<Candidate>,
    k: int,
    c: Candidate,
)
    requires
        0 < k,
        is_heap(heap),
        is_top_of(heap, rest, k),
        heap.len() < k ==> leaves_nothing(heap, rest),
        !c.dot.greater(bar(heap, k)),
        offers.len() > 0,
        rest == offers.drop_last(),
        c == offers.last(),
        offers.to_multiset() == rest.to_multiset().insert(c),
    ensures
        is_top_of(heap, offers, k),
        heap.len() < k ==> leaves_nothing(heap, offers),
{
    broadcast use vstd::multiset::group_multiset_axioms;

    assert forall|d: Candidate, p: int|
        #![trigger offers.to_multiset().count(d), heap[p]]
        0 <= p < heap.len() && heap.to_multiset().count(d) < offers.to_multiset().count(
            d,
        ) implies !d.dot.greater(heap[p].dot) by {
        if d == c {
            lemma_root_is_least(heap, p);
            assert(is_admissible(heap[p].dot));
        } else {
            assert(heap.to_multiset().count(d) < rest.to_multiset().count(d));
        }
    }
    assert forall|d: Candidate| #[trigger]
        heap.to_multiset().count(d) <= offers.to_multiset().count(d) by {
        assert(heap.to_multiset().count(d) <= rest.to_multiset().count(d));
    }
    if heap.len() < k {
        assert forall|d: Candidate|
            heap.to_multiset().count(d) < #[trigger] offers.to_multiset().count(
                d,
            ) implies !is_admissible(d.dot) by {
            if d != c {
                assert(heap.to_multiset().count(d) < rest.to_multiset().count(d));
            }
        }
    }
}

/// An offer that beats the bar of a heap with room is taken in.
proof fn lemma_taken_in(
    heap: Seq<Candidate>,
    rest: Seq<Candidate>,
    offers: Seq<Candidate>,
    k: int,
    c: Candidate,
)
    requires
        0 < k,
        is_heap(heap),
        is_top_of(heap, rest, k),
        heap.len() < k,
        leaves_nothing(heap, rest),
        c.dot.greater(bar(heap, k)),
        offers.len() > 0,
        rest == offers.drop_last(),
        c == offers.last(),
        offers.to_multiset() == rest.to_multiset().insert(c),
    ensures
        is_top_of(pushed(heap, c), offers, k),
        pushed(heap, c).len() < k ==> leaves_nothing(pushed(heap, c), offers),
{
    broadcast use vstd::multiset::group_multiset_axioms;

    let next = pushed(heap, c);
    lemma_pushed(heap, c);
    heap.to_multiset_ensures();
    next.to_multiset_ensures();
    heap.push(c).to_multiset_ensures();
    assert(next.to_multiset() == heap.to_multiset().insert(c));
    assert forall|p: int| 0 <= p < next.len() implies is_admissible((#[trigger] next[p]).dot) by {
        lemma_came_from(next, heap.push(c), p);
    }
    assert forall|d: Candidate| next.to_multiset().count(d) < #[trigger] offers.to_multiset().count(
        d,
    ) implies !is_admissible(d.dot) by {
        assert(heap.to_multiset().count(d) < rest.to_multiset().count(d));
    }
    assert forall|d: Candidate| #[trigger]
        next.to_multiset().count(d) <= offers.to_multiset().count(d) by {
        assert(heap.to_multiset().count(d) <= rest.to_multiset().count(d));
    }
    assert forall|d: Candidate, p: int|
        #![trigger offers.to_multiset().count(d), next[p]]
        0 <= p < next.len() && next.to_multiset().count(d) < offers.to_multiset().count(
            d,
        ) implies !d.dot.greater(next[p].dot) by {
        assert(!is_admissible(d.dot));
        assert(is_admissible(next[p].dot));
    }
}

/// An offer that beats the bar of a full heap is taken in for its root.
proof fn lemma_taken_for_root(
    heap: Seq<Candidate>,
    rest: Seq<Candidate>,
    offers: Seq<Candidate>,
    k: int,
    c: Candidate,
)
    requires
        0 < k,
        is_heap(heap),
        is_top_of(heap, rest, k),
        heap.len() == k,
        c.dot.greater(bar(heap, k)),
        offers.len() > 0,
        rest == offers.drop_last(),
        c == offers.last(),
        offers.to_multiset() == rest.to_multiset().insert(c),
    ensures
        is_top_of(replaced(heap, c), offers, k),
        replaced(heap, c).len() == k,
{
    broadcast use vstd::multiset::group_multiset_axioms;

    let next = replaced(heap, c);
    let swapped = heap.update(0, c);
    let root = heap[0];
    lemma_replaced(heap, c);
    vstd::seq_lib::to_multiset_update(heap, 0, c);
    heap.to_multiset_ensures();
    next.to_multiset_ensures();
    swapped.to_multiset_ensures();
    assert(heap.contains(root));
    vstd::seq_lib::to_multiset_contains(heap, root);
    assert(next.to_multiset() == heap.to_multiset().insert(c).remove(root));
    assert(is_admissible(root.dot));
    assert forall|p: int| 0 <= p < next.len() implies is_admissible((#[trigger] next[p]).dot)
        && next[p].dot.rank() >= root.dot.rank() by {
        let q = lemma_came_from(next, swapped, p);
        if q > 0 {
            lemma_root_is_least(heap, q);
            assert(is_admissible(heap[q].dot));
        }
    }
    assert forall|d: Candidate| #[trigger]
        next.to_multiset().count(d) <= offers.to_multiset().count(d) by {
        assert(heap.to_multiset().count(d) <= rest.to_multiset().count(d));
    }
    assert forall|d: Candidate, p: int|
        #![trigger offers.to_multiset().count(d), next[p]]
        0 <= p < next.len() && next.to_multiset().count(d) < offers.to_multiset().count(
            d,
        ) implies !d.dot.greater(next[p].dot) by {
        if d != root {
            assert(heap.to_multiset().count(d) < rest.to_multiset().count(d));
            assert(!d.dot.greater(heap[0].dot));
        }
        assert(next[p].dot.rank() >= root.dot.rank());
    }
}

/// Where an entry stood in another order of the same candidates.
proof fn lemma_came_from(now: Seq<Candidate>, before: Seq<Candidate>, p: int) -> (q: int)
    requires
        now.to_multiset() == before.to_multiset(),
        0 <= p < now.len(),
    ensures
        0 <= q < before.len(),
        before[q] == now[p],
{
    assert(now.contains(now[p]));
    vstd::seq_lib::to_multiset_contains(now, now[p]);
    vstd::seq_lib::to_multiset_contains(before, now[p]);
    choose|q: int| 0 <= q < before.len() && before[q] == now[p]
}

/// Every node's bounded top-k.
///
/// Each node owns a `k`-slot min-heap on the dot product, so the root is the
/// weakest neighbour kept and a candidate is admitted iff it beats the root.
/// The roots are mirrored into a separate contiguous `thresholds` vector because
/// the column-direction scan compares sixteen different nodes' thresholds at
/// once.
pub struct TopKHeaps {
    pub k: usize,
    /// `n * k` slots; node `i`'s heap is `[i * k, i * k + lens[i])`.
    pub slots: Vec<Candidate>,
    pub lens: Vec<u32>,
    /// Admission threshold per node: the heap root once full, negative infinity
    /// while filling (so every finite candidate is taken).
    pub thresholds: Vec<Single>,
    /// What each node was offered, in the order it was.
    pub offers: Ghost<Seq<Seq<Candidate>>>,
}

proof fn lemma_apart(i: int, j: int, k: int)
    by (nonlinear_arith)
    requires
        i < j,
        0 < k,
    ensures
        i * k + k <= j * k,
{
}

proof fn lemma_inside(i: int, n: int, k: int)
    by (nonlinear_arith)
    requires
        0 <= i < n,
        0 < k,
    ensures
        0 <= i * k,
        i * k + k <= n * k,
{
}

/// Two orders of the same candidates hold the same ones.
pub proof fn lemma_same_members(a: Seq<Candidate>, b: Seq<Candidate>)
    requires
        a.to_multiset() == b.to_multiset(),
        ids_distinct(a),
    ensures
        a.len() == b.len(),
        ids_distinct(b),
        forall|c: Candidate| #[trigger] a.contains(c) <==> b.contains(c),
        forall|id: int| #[trigger] lists(a, id) <==> lists(b, id),
{
    a.to_multiset_ensures();
    b.to_multiset_ensures();
    assert forall|c: Candidate| #[trigger] a.contains(c) <==> b.contains(c) by {
        vstd::seq_lib::to_multiset_contains(a, c);
        vstd::seq_lib::to_multiset_contains(b, c);
    }
    assert(a.no_duplicates());
    a.lemma_multiset_has_no_duplicates();
    b.lemma_multiset_has_no_duplicates_conv();
    assert forall|p: int, q: int| 0 <= p < q < b.len() implies (#[trigger] b[p]).id != (
    #[trigger] b[q]).id by {
        assert(b.contains(b[p]) && b.contains(b[q]));
        assert(a.contains(b[p]) && a.contains(b[q]));
        let x = choose|x: int| 0 <= x < a.len() && a[x] == b[p];
        let y = choose|y: int| 0 <= y < a.len() && a[y] == b[q];
        assert(b[p] != b[q]);
    }
    assert forall|id: int| #[trigger] lists(a, id) <==> lists(b, id) by {
        if lists(a, id) {
            let p = choose|p: int| 0 <= p < a.len() && (#[trigger] a[p]).id == id;
            assert(a.contains(a[p]));
            assert(b.contains(a[p]));
        }
        if lists(b, id) {
            let p = choose|p: int| 0 <= p < b.len() && (#[trigger] b[p]).id == id;
            assert(b.contains(b[p]));
            assert(a.contains(b[p]));
        }
    }
}

/// What a heap holds of offers, each made once, is the top of their scores.
proof fn lemma_stored_holds_top(offers: Seq<Candidate>, k: int, seen: Scores, node: int)
    requires
        0 < k,
        ids_distinct(offers),
        forall|id: int| #[trigger] seen.contains_key((node, id)) <==> lists(offers, id),
        forall|p: int|
            0 <= p < offers.len() ==> seen[(node, (#[trigger] offers[p]).id as int)]
                == offers[p].dot,
    ensures
        holds_top(stored(offers, k), k, bar(stored(offers, k), k), seen, node),
        ids_distinct(stored(offers, k)),
{
    reveal(holds_top);
    let heap = stored(offers, k);
    lemma_stored_is_top(offers, k);
    lemma_stored_is_heap(offers, k);
    assert(offers.no_duplicates());
    offers.lemma_multiset_has_no_duplicates();
    assert forall|c: Candidate| heap.to_multiset().contains(c) implies heap.to_multiset().count(c)
        == 1 by {
        assert(heap.to_multiset().count(c) <= offers.to_multiset().count(c));
    }
    heap.lemma_multiset_has_no_duplicates_conv();
    assert forall|p: int| 0 <= p < heap.len() implies offers.contains(#[trigger] heap[p]) by {
        assert(heap.contains(heap[p]));
        vstd::seq_lib::to_multiset_contains(heap, heap[p]);
        assert(heap.to_multiset().count(heap[p]) <= offers.to_multiset().count(heap[p]));
        vstd::seq_lib::to_multiset_contains(offers, heap[p]);
    }
    assert forall|p: int| 0 <= p < heap.len() implies (#[trigger] heap[p]).dot.rank() > -INFINITE
        && seen.contains_key((node, heap[p].id as int)) && seen[(node, heap[p].id as int)]
        == heap[p].dot by {
        let q = choose|q: int| 0 <= q < offers.len() && offers[q] == heap[p];
        assert(is_admissible(heap[p].dot));
        assert(lists(offers, offers[q].id as int));
    }
    assert forall|p: int, q: int| 0 <= p < q < heap.len() implies (#[trigger] heap[p]).id != (
    #[trigger] heap[q]).id by {
        let a = choose|a: int| 0 <= a < offers.len() && offers[a] == heap[p];
        let b = choose|b: int| 0 <= b < offers.len() && offers[b] == heap[q];
        assert(heap[p] != heap[q]);
        assert(a != b);
    }
    let once = bar(heap, k);
    assert forall|id: int| (#[trigger] seen.contains_key((node, id))) && !lists(
        heap,
        id,
    ) implies !seen[(node, id)].greater(once) by {
        let p = choose|p: int| 0 <= p < offers.len() && (#[trigger] offers[p]).id == id;
        let c = offers[p];
        assert(offers.contains(c));
        vstd::seq_lib::to_multiset_contains(offers, c);
        if heap.contains(c) {
            let q = choose|q: int| 0 <= q < heap.len() && heap[q] == c;
            assert(heap[q].id == id);
        }
        vstd::seq_lib::to_multiset_contains(heap, c);
        assert(heap.to_multiset().count(c) < offers.to_multiset().count(c));
        if heap.len() == k {
            assert(!c.dot.greater(heap[0].dot));
        }
    }
}

impl TopKHeaps {
    /// How many nodes there are.
    pub open spec fn n(&self) -> int {
        self.lens@.len() as int
    }

    /// Node `i`'s heap.
    pub open spec fn heap_of(&self, i: int) -> Seq<Candidate> {
        self.slots@.subrange(i * self.k, i * self.k + self.lens@[i])
    }

    /// The lengths fit together.
    pub open spec fn shaped(&self) -> bool {
        &&& 0 < self.k <= u32::MAX
        &&& self.thresholds@.len() == self.lens@.len()
        &&& self.slots@.len() == self.lens@.len() * self.k
        &&& self.offers@.len() == self.lens@.len()
    }

    /// Whether node `i` holds what a heap does of `offers`, and its threshold is the
    /// bar of that heap.
    pub open spec fn node_holds(&self, i: int, offers: Seq<Candidate>) -> bool {
        &&& self.lens@[i] <= self.k
        &&& self.heap_of(i) == stored(offers, self.k as int)
        &&& self.thresholds@[i] == bar(self.heap_of(i), self.k as int)
    }

    /// The lengths fit together, and every node holds what a heap does of its offers.
    pub open spec fn holds_offers(&self) -> bool {
        &&& self.shaped()
        &&& forall|i: int| 0 <= i < self.n() ==> self.node_holds(i, #[trigger] self.offers@[i])
    }

    /// Whether `self` came out of `before` by offers alone.
    pub open spec fn follows(&self, before: &TopKHeaps) -> bool {
        &&& self.holds_offers()
        &&& self.k == before.k
        &&& self.n() == before.n()
        &&& forall|i: int|
            0 <= i < self.n() ==> !(#[trigger] self.thresholds@[i]).is_nan()
                && self.thresholds@[i].rank() >= before.thresholds@[i].rank()
    }

    pub proof fn lemma_follows_itself(&self)
        requires
            self.holds_offers(),
        ensures
            self.follows(self),
    {
        assert forall|i: int|
            0 <= i < self.n() implies !(#[trigger] self.thresholds@[i]).is_nan() by {
            self.lemma_held(i);
        }
    }

    /// What each node holds, by its offers.
    pub proof fn lemma_all_held(&self)
        requires
            self.holds_offers(),
        ensures
            forall|v: int|
                0 <= v < self.n() ==> #[trigger] self.heap_of(v) == stored(
                    self.offers@[v],
                    self.k as int,
                ),
    {
        assert forall|v: int| 0 <= v < self.n() implies #[trigger] self.heap_of(v) == stored(
            self.offers@[v],
            self.k as int,
        ) by {
            self.lemma_held(v);
        }
    }

    /// What each node has to be offered to take it in, by its offers.
    pub proof fn lemma_bars(&self)
        requires
            self.holds_offers(),
        ensures
            forall|x: int|
                0 <= x < self.offers@.len() ==> #[trigger] self.thresholds@[x] == bar(
                    stored(self.offers@[x], self.k as int),
                    self.k as int,
                ),
    {
        assert forall|x: int| 0 <= x < self.offers@.len() implies #[trigger] self.thresholds@[x]
            == bar(stored(self.offers@[x], self.k as int), self.k as int) by {
            self.lemma_held(x);
        }
    }

    /// Whether `self` differs from `before` in node `node` alone.
    spec fn only(&self, before: &TopKHeaps, node: int) -> bool {
        &&& self.shaped()
        &&& self.k == before.k
        &&& self.n() == before.n()
        &&& forall|i: int|
            0 <= i < self.n() && i != node ==> self.lens@[i] == before.lens@[i]
                && self.thresholds@[i] == before.thresholds@[i]
        &&& forall|p: int|
            0 <= p < self.slots@.len() && !(node * self.k <= p < node * self.k + self.k)
                ==> self.slots@[p] == before.slots@[p]
    }

    /// After any offers, each node holds a top `k` of those made to it.
    pub proof fn lemma_holds_top_of_offers(&self, node: int)
        requires
            self.holds_offers(),
            0 <= node < self.n(),
        ensures
            self.heap_of(node).len() == self.lens@[node],
            is_top_of(self.heap_of(node), self.offers@[node], self.k as int),
    {
        self.lemma_held(node);
        lemma_stored_is_top(self.offers@[node], self.k as int);
    }

    /// What holding its offers says of one node.
    proof fn lemma_held(&self, i: int)
        requires
            self.holds_offers(),
            0 <= i < self.n(),
        ensures
            0 <= i * self.k,
            i * self.k + self.k <= self.slots@.len(),
            self.lens@[i] <= self.k,
            self.heap_of(i).len() == self.lens@[i],
            is_heap(self.heap_of(i)),
            self.heap_of(i) == stored(self.offers@[i], self.k as int),
            self.thresholds@[i] == bar(self.heap_of(i), self.k as int),
            !self.thresholds@[i].is_nan(),
    {
        assert(self.node_holds(i, self.offers@[i]));
        lemma_inside(i, self.n(), self.k as int);
        lemma_stored_is_heap(self.offers@[i], self.k as int);
    }

    /// Admits a candidate to a heap with room.
    fn append(&mut self, node: usize, c: Candidate)
        requires
            old(self).holds_offers(),
            node < old(self).n(),
            old(self).lens@[node as int] < old(self).k,
            !c.dot.is_nan(),
        ensures
            final(self).only(old(self), node as int),
            final(self).offers@ == old(self).offers@,
            final(self).lens@[node as int] <= final(self).k,
            final(self).heap_of(node as int) == pushed(old(self).heap_of(node as int), c),
            final(self).thresholds@[node as int] == bar(
                final(self).heap_of(node as int),
                final(self).k as int,
            ),
    {
        let ghost i = node as int;
        proof {
            self.lemma_held(i);
            assert(self.slots.len() == self.slots@.len());
        }
        let base: usize = node * self.k;
        let len: usize = self.lens[node] as usize;
        let ghost heap = self.heap_of(i);
        push(&mut self.slots, base, len, c);
        self.lens[node] = len as u32 + 1;
        proof {
            assert(self.heap_of(i) =~= pushed(heap, c));
            assert(self.heap_of(i)[0] == self.slots@[base as int]);
        }
        if len + 1 == self.k {
            self.thresholds[node] = self.slots[base].dot;
        }
    }

    /// Admits a candidate in place of the weakest neighbour of a full heap.
    fn replace_root(&mut self, node: usize, c: Candidate)
        requires
            old(self).holds_offers(),
            node < old(self).n(),
            old(self).lens@[node as int] == old(self).k,
            !c.dot.is_nan(),
        ensures
            final(self).only(old(self), node as int),
            final(self).offers@ == old(self).offers@,
            final(self).lens@[node as int] <= final(self).k,
            final(self).heap_of(node as int) == replaced(old(self).heap_of(node as int), c),
            final(self).thresholds@[node as int] == bar(
                final(self).heap_of(node as int),
                final(self).k as int,
            ),
    {
        let ghost i = node as int;
        proof {
            self.lemma_held(i);
            assert(self.slots.len() == self.slots@.len());
        }
        let k: usize = self.k;
        let base: usize = node * k;
        let ghost heap = self.heap_of(i);
        replace_root(&mut self.slots, base, k, c);
        proof {
            assert(self.heap_of(i) =~= replaced(heap, c));
            assert(self.heap_of(i)[0] == self.slots@[base as int]);
        }
        self.thresholds[node] = self.slots[base].dot;
    }

    /// A change to one node leaves what the others hold of their offers as it was.
    proof fn lemma_only_held(&self, before: &TopKHeaps, node: int, c: Candidate)
        requires
            before.holds_offers(),
            0 <= node < before.n(),
            self.only(before, node),
            self.offers@ == before.offers@.update(node, before.offers@[node].push(c)),
            self.node_holds(node, self.offers@[node]),
        ensures
            self.follows(before),
    {
        before.lemma_held(node);
        before.lemma_follows_itself();
        lemma_stored_next(before.offers@[node], c, self.k as int);
        lemma_admitted(before.heap_of(node), self.k as int, c);
        assert forall|i: int| 0 <= i < self.n() implies self.node_holds(
            i,
            #[trigger] self.offers@[i],
        ) by {
            if i != node {
                before.lemma_held(i);
                if i < node {
                    lemma_apart(i, node, self.k as int);
                } else {
                    lemma_apart(node, i, self.k as int);
                }
                assert(self.heap_of(i) =~= before.heap_of(i));
            }
        }
        self.lemma_follows_itself();
    }

    /// Offers `id` at dot product `dot` to node `node`'s top-k, keeping it only
    /// if it beats the weakest neighbour already there.
    ///
    /// The threshold is rechecked here rather than trusted from the caller: the
    /// scans compare a whole row or column strip against one snapshot of it, so
    /// by the time a candidate is offered the bar may already have risen. A NaN
    /// dot product compares greater than nothing, so it is dropped rather than
    /// admitted.
    pub fn offer(&mut self, node: usize, dot: Single, id: u32)
        requires
            old(self).holds_offers(),
            node < old(self).n(),
        ensures
            final(self).follows(old(self)),
            final(self).offers@ == old(self).offers@.update(
                node as int,
                old(self).offers@[node as int].push(Candidate { dot, id }),
            ),
            final(self).heap_of(node as int) == admitted(
                old(self).heap_of(node as int),
                old(self).k as int,
                (Candidate { dot, id }),
            ),
            forall|i: int|
                0 <= i < old(self).n() && i != node ==> #[trigger] final(self).heap_of(i)
                    == old(self).heap_of(i),
    {
        let ghost before = *self;
        let ghost c = Candidate { dot, id };
        let ghost i = node as int;
        proof {
            self.lemma_held(i);
        }
        if dot.gt(self.thresholds[node]) {
            if (self.lens[node] as usize) < self.k {
                self.append(node, Candidate { dot, id });
            } else {
                self.replace_root(node, Candidate { dot, id });
            }
        }
        self.offers = Ghost(
            self.offers@.update(
                node as int,
                self.offers@[node as int].push(Candidate { dot, id }),
            ),
        );
        proof {
            lemma_stored_next(before.offers@[i], c, self.k as int);
            assert(self.heap_of(i) == admitted(before.heap_of(i), self.k as int, c));
            self.lemma_only_held(&before, i, c);
            self.lemma_all_held();
            before.lemma_all_held();
        }
    }

    /// Notes candidates that were compared and beat no threshold, so that nothing of
    /// them is to be kept.
    pub fn pass_over(&mut self, Ghost(offers): Ghost<Seq<Seq<Candidate>>>)
        requires
            old(self).holds_offers(),
            offers.len() == old(self).n(),
            forall|i: int|
                0 <= i < old(self).n() ==> stored(#[trigger] offers[i], old(self).k as int)
                    == stored(old(self).offers@[i], old(self).k as int),
        ensures
            final(self).follows(old(self)),
            final(self).offers@ == offers,
    {
        let ghost before = *self;
        self.offers = Ghost(offers);
        proof {
            assert forall|i: int| 0 <= i < self.n() implies self.node_holds(
                i,
                #[trigger] self.offers@[i],
            ) by {
                before.lemma_held(i);
                assert(self.heap_of(i) == before.heap_of(i));
            }
            self.lemma_follows_itself();
        }
    }
}

/// What [`TopKHeaps::new`] reports when the slots cannot be counted.
pub open spec fn too_many_slots(n: nat, k: nat) -> Seq<char> {
    "exact_knn_topk: n ("@ + decimal(n) + ") * k ("@ + decimal(k)
        + ") neighbour slots overflows usize"@
}

/// What [`TopKHeaps::into_knn`] reports for a node with too few neighbours.
pub open spec fn too_few_neighbours(node: nat, found: nat, k: nat) -> Seq<char> {
    "exact_knn_topk: node "@ + decimal(node) + " found only "@ + decimal(found) + " of "@
        + decimal(k) + " neighbours; the partition's vectors must all be finite"@
}

/// What [`TopKHeaps::into_knn`] makes of nodes that hold the top `k` of the scores
/// in `seen`, each candidate offered once: an exact table, of equals those kept in the
/// order of `arrived`, or the error for the first node with too few.
pub open spec fn is_top_table(
    seen: Scores,
    arrived: Seq<Seq<int>>,
    n: int,
    k: int,
    r: Result<ExactKnn, Error>,
) -> bool {
    match r {
        Ok(knn) => {
            &&& knn.is_exact(seen)
            &&& forall|node: int|
                0 <= node < n ==> (#[trigger] admissible(seen, node)).len() >= k
            &&& forall|node: int|
                0 <= node < n ==> lists_all(
                    #[trigger] knn.ids_of(node),
                    kept(arrived[node], seen, node, k),
                )
        },
        Err(e) => e is InvalidInput && exists|node: int|
            #![trigger admissible(seen, node)]
            {
                &&& 0 <= node < n
                &&& admissible(seen, node).len() < k
                &&& forall|before: int|
                    0 <= before < node ==> (#[trigger] admissible(seen, before)).len() >= k
                &&& e.text() == too_few_neighbours(
                    node as nat,
                    admissible(seen, node).len(),
                    k as nat,
                )
            },
    }
}

/// An integer that orders candidates nearest-first.
spec fn nearness(c: Candidate) -> int {
    (u32::MAX - (c.dot.total_rank() + SIGN)) * HALF + c.id
}

proof fn lemma_nearness(a: Candidate, b: Candidate)
    ensures
        nearness(a) < nearness(b) <==> ranks_before(a.dot, a.id as int, b.dot, b.id as int),
        nearness(a) == nearness(b) <==> a == b,
{
}

/// Whether no candidate of a row ranks before an earlier one.
pub open spec fn is_nearest_first(row: Seq<Candidate>) -> bool {
    forall|r: int, s: int|
        0 <= r < s < row.len() ==> !ranks_before(
            (#[trigger] row[s]).dot,
            row[s].id as int,
            (#[trigger] row[r]).dot,
            row[r].id as int,
        )
}

/// Whether `ids` and `distances` are those of the candidates in a row.
pub open spec fn is_row_of(ids: Seq<u32>, distances: Seq<Single>, row: Seq<Candidate>) -> bool {
    &&& ids.len() == row.len()
    &&& distances.len() == row.len()
    &&& forall|r: int|
        0 <= r < row.len() ==> (#[trigger] ids[r]) == row[r].id && row[r].dot.is_one_minus(
            distances[r],
        )
}

/// Whether `ids` at `distances` are the candidates of `heap`, nearest first.
pub open spec fn lists_heap(
    ids: Seq<u32>,
    distances: Seq<Single>,
    heap: Seq<Candidate>,
) -> bool {
    exists|row: Seq<Candidate>|
        {
            &&& row.to_multiset() == heap.to_multiset()
            &&& is_nearest_first(row)
            &&& #[trigger] is_row_of(ids, distances, row)
        }
}

/// [`lists_heap`], of the row that starts at `node * k`.
pub open spec fn lists_heap_at(
    ids: Seq<u32>,
    distances: Seq<Single>,
    k: int,
    heap: Seq<Candidate>,
    node: int,
) -> bool {
    lists_heap(
        ids.subrange(node * k, node * k + k),
        distances.subrange(node * k, node * k + k),
        heap,
    )
}

/// A run of candidates nearest-first.
fn nearest_first(slots: &Vec<Candidate>, base: usize, len: usize) -> (out: Vec<Candidate>)
    requires
        base + len <= slots@.len(),
    ensures
        out@.len() == len,
        out@.to_multiset() == slots@.subrange(base as int, base + len).to_multiset(),
        is_nearest_first(out@),
{
    let ghost run = slots@.subrange(base as int, base + len);
    let ghost key = |c: Candidate| nearness(c) as u64;
    let mut keys: Vec<u64> = Vec::new();
    let mut i: usize = 0;
    while i < len
        invariant
            i <= len,
            base + len <= slots@.len(),
            run == slots@.subrange(base as int, base + len),
            keys@.len() == i,
            forall|p: int| 0 <= p < i ==> #[trigger] keys@[p] == nearness(run[p]),
        decreases len - i,
    {
        assert(slots.len() == slots@.len());
        let c: Candidate = slots[base + i];
        assert(run[i as int] == c);
        keys.push(pack(u32::MAX - c.dot.total_key(), c.id));
        i += 1;
    }
    let ghost unsorted = keys@;
    let keys = sorted(keys);
    let mut out: Vec<Candidate> = Vec::new();
    i = 0;
    while i < len
        invariant
            i <= len,
            keys@.len() == len,
            out@.len() == i,
            forall|p: int| 0 <= p < i ==> nearness(#[trigger] out@[p]) == keys@[p],
        decreases len - i,
    {
        let (near, id) = unpack(keys[i]);
        out.push(Candidate { dot: Single::from_total_key(u32::MAX - near), id });
        i += 1;
    }
    proof {
        assert forall|x: Candidate, y: Candidate| #[trigger] key(x) == #[trigger] key(
            y,
        ) implies x == y by {
            lemma_nearness(x, y);
        }
        assert(unsorted =~= run.map_values(key));
        assert(keys@ =~= out@.map_values(key));
        assert forall|c: Candidate|
            out@.to_multiset().count(c) == run.to_multiset().count(c) by {
            lemma_mapped_count(out@, key, c);
            lemma_mapped_count(run, key, c);
        }
        assert(out@.to_multiset() =~= run.to_multiset());
        assert forall|r: int, s: int| 0 <= r < s < len implies !ranks_before(
            (#[trigger] out@[s]).dot,
            out@[s].id as int,
            (#[trigger] out@[r]).dot,
            out@[r].id as int,
        ) by {
            assert(keys@[r] <= keys@[s]);
            lemma_nearness(out@[s], out@[r]);
        }
    }
    out
}

/// A row of distinct candidates has no two of one rank.
proof fn lemma_distinct_row(heap: Seq<Candidate>, row: Seq<Candidate>)
    requires
        row.to_multiset() == heap.to_multiset(),
        ids_distinct(heap),
        is_nearest_first(row),
    ensures
        row.len() == heap.len(),
        forall|c: Candidate| #[trigger] row.contains(c) <==> heap.contains(c),
        forall|r: int, s: int|
            0 <= r < s < row.len() ==> ranks_before(
                (#[trigger] row[r]).dot,
                row[r].id as int,
                (#[trigger] row[s]).dot,
                row[s].id as int,
            ),
{
    lemma_same_members(heap, row);
    assert forall|r: int, s: int| 0 <= r < s < row.len() implies ranks_before(
        (#[trigger] row[r]).dot,
        row[r].id as int,
        (#[trigger] row[s]).dot,
        row[s].id as int,
    ) by {
        assert(row[r].id != row[s].id);
    }
}

/// Adds one node's neighbours to the table, with their distances.
fn append_row(row: &Vec<Candidate>, ids: &mut Vec<u32>, distances: &mut Vec<Single>)
    requires
        old(ids)@.len() == old(distances)@.len(),
        forall|r: int| 0 <= r < row@.len() ==> !(#[trigger] row@[r]).dot.is_nan(),
    ensures
        final(ids)@.len() == old(ids)@.len() + row@.len(),
        final(distances)@.len() == final(ids)@.len(),
        final(ids)@.take(old(ids)@.len() as int) == old(ids)@,
        final(distances)@.take(old(ids)@.len() as int) == old(distances)@,
        forall|r: int|
            0 <= r < row@.len() ==> (#[trigger] row@[r]).id == final(ids)@[old(ids)@.len() + r]
                && row@[r].dot.is_one_minus(final(distances)@[old(ids)@.len() + r]),
{
    let ghost lo = ids@.len() as int;
    let mut rank: usize = 0;
    assert(ids@.take(lo) =~= old(ids)@);
    assert(distances@.take(lo) =~= old(distances)@);
    while rank < row.len()
        invariant
            rank <= row@.len(),
            lo == old(ids)@.len(),
            ids@.len() == lo + rank,
            distances@.len() == lo + rank,
            ids@.take(lo) == old(ids)@,
            distances@.take(lo) == old(distances)@,
            forall|r: int| 0 <= r < row@.len() ==> !(#[trigger] row@[r]).dot.is_nan(),
            forall|r: int|
                0 <= r < rank ==> (#[trigger] row@[r]).id == ids@[lo + r]
                    && row@[r].dot.is_one_minus(distances@[lo + r]),
        decreases row@.len() - rank,
    {
        ids.push(row[rank].id);
        distances.push(row[rank].dot.one_minus());
        assert(ids@.take(lo) =~= old(ids)@);
        assert(distances@.take(lo) =~= old(distances)@);
        rank += 1;
    }
}

/// A heap with room left holds everything admissible; a full one shows that
/// there were at least `k`.
proof fn lemma_found(heap: Seq<Candidate>, k: int, threshold: Single, seen: Scores, node: int)
    requires
        holds_top(heap, k, threshold, seen, node),
        ids_fit(seen),
    ensures
        admissible(seen, node).finite(),
        heap.len() < k ==> admissible(seen, node).len() == heap.len(),
        heap.len() == k ==> admissible(seen, node).len() >= k,
{
    reveal(holds_top);
    let ids = Seq::new(heap.len(), |p: int| heap[p].id as int);
    let all = admissible(seen, node);
    assert(ids.no_duplicates());
    ids.unique_seq_to_set();
    vstd::set_lib::lemma_int_range(0, 0x1_0000_0000);
    assert(all.subset_of(vstd::set_lib::set_int_range(0, 0x1_0000_0000)));
    vstd::set_lib::lemma_set_subset_finite(vstd::set_lib::set_int_range(0, 0x1_0000_0000), all);
    assert forall|id: int| ids.to_set().contains(id) implies all.contains(id) by {
        let p = choose|p: int| 0 <= p < ids.len() && ids[p] == id;
        assert(heap[p].id == id);
    }
    vstd::set_lib::lemma_len_subset(ids.to_set(), all);
    if heap.len() < k {
        assert forall|id: int| all.contains(id) implies ids.to_set().contains(id) by {
            assert(seen.contains_key((node, id)));
            assert(lists(heap, id));
            let p = choose|p: int| 0 <= p < heap.len() && (#[trigger] heap[p]).id == id;
            assert(ids[p] == id);
        }
        assert(all =~= ids.to_set());
    }
}

/// A sorted full heap is an exact row of the neighbour table.
proof fn lemma_sorted_heap_is_exact(
    heap: Seq<Candidate>,
    row: Seq<Candidate>,
    k: int,
    threshold: Single,
    seen: Scores,
    node: int,
    ids: Seq<u32>,
    distances: Seq<Single>,
)
    requires
        holds_top(heap, k, threshold, seen, node),
        heap.len() == k,
        row.len() == k,
        forall|c: Candidate| #[trigger] row.contains(c) <==> heap.contains(c),
        forall|r: int, s: int|
            0 <= r < s < k ==> ranks_before(
                (#[trigger] row[r]).dot,
                row[r].id as int,
                (#[trigger] row[s]).dot,
                row[s].id as int,
            ),
        ids.len() == k,
        distances.len() == k,
        forall|r: int|
            0 <= r < k ==> (#[trigger] ids[r]) == row[r].id && row[r].dot.is_one_minus(
                distances[r],
            ),
    ensures
        is_exact_row(ids, distances, seen, node),
{
    reveal(holds_top);
    assert forall|r: int| 0 <= r < k implies {
        let key = (node, (#[trigger] ids[r]) as int);
        &&& seen.contains_key(key)
        &&& seen[key] == row[r].dot
        &&& is_admissible(seen[key])
        &&& threshold.rank() <= seen[key].rank()
    } by {
        assert(row.contains(row[r]));
        let p = choose|p: int| 0 <= p < heap.len() && heap[p] == row[r];
        lemma_root_is_least(heap, p);
    }
    assert forall|id: int, r: int|
        0 <= r < ids.len() && (#[trigger] seen.contains_key((node, id))) && (forall|s: int|
            0 <= s < ids.len() ==> #[trigger] ids[s] != id) implies !seen[(node, id)].greater(
        seen[(node, (#[trigger] ids[r]) as int)],
    ) by {
        if lists(heap, id) {
            let p = choose|p: int| 0 <= p < heap.len() && (#[trigger] heap[p]).id == id;
            assert(heap.contains(heap[p]));
            assert(row.contains(heap[p]));
            let s = choose|s: int| 0 <= s < row.len() && row[s] == heap[p];
            assert(ids[s] == id);
        }
        if k > 0 {
            lemma_root_is_least(heap, 0);
        }
    }
}

/// A sorted heap lists what the heap holds.
proof fn lemma_sorted_heap_is_listed(heap: Seq<Candidate>, row: Seq<Candidate>, ids: Seq<u32>)
    requires
        row.len() == heap.len(),
        ids.len() == heap.len(),
        forall|c: Candidate| #[trigger] row.contains(c) <==> heap.contains(c),
        forall|r: int| 0 <= r < ids.len() ==> (#[trigger] ids[r]) == row[r].id,
    ensures
        lists_all(ids, heap),
{
    assert forall|id: u32| #[trigger] ids.contains(id) <==> lists(heap, id as int) by {
        if ids.contains(id) {
            let r = choose|r: int| 0 <= r < ids.len() && ids[r] == id;
            assert(row.contains(row[r]));
            let p = choose|p: int| 0 <= p < heap.len() && heap[p] == row[r];
            assert(heap[p].id == id);
        }
        if lists(heap, id as int) {
            let p = choose|p: int| 0 <= p < heap.len() && (#[trigger] heap[p]).id == id as int;
            assert(heap.contains(heap[p]));
            assert(row.contains(heap[p]));
            let r = choose|r: int| 0 <= r < row.len() && row[r] == heap[p];
            assert(ids[r] == id);
        }
    }
}

impl TopKHeaps {
    /// Empty heaps of `k` slots for `n` nodes.
    pub fn new(n: usize, k: usize) -> (r: Result<TopKHeaps, Error>)
        requires
            0 < k <= u32::MAX,
        ensures
            r is Ok <==> n * k <= usize::MAX,
            r matches Ok(heaps) ==> {
                &&& heaps.holds_offers()
                &&& heaps.n() == n
                &&& heaps.k == k
                &&& heaps.offers@ == Seq::new(n as nat, |i: int| Seq::<Candidate>::empty())
            },
            r matches Err(e) ==> e is InvalidInput && e.text() == too_many_slots(
                n as nat,
                k as nat,
            ),
    {
        match n.checked_mul(k) {
            None => {
                let mut message = String::from_str("exact_knn_topk: n (");
                append_decimal(&mut message, n as u64);
                message.append(") * k (");
                append_decimal(&mut message, k as u64);
                message.append(") neighbour slots overflows usize");
                Err(Error::InvalidInput { message })
            },
            Some(slots) => {
                let heaps = TopKHeaps {
                    k,
                    slots: vec![
                        Candidate { dot: Single { bits: NEG_INFINITY }, id: u32::MAX };
                        slots
                    ],
                    lens: vec![0; n],
                    thresholds: vec![Single { bits: NEG_INFINITY }; n],
                    offers: Ghost(Seq::new(n as nat, |i: int| Seq::<Candidate>::empty())),
                };
                proof {
                    assert forall|i: int| 0 <= i < heaps.n() implies heaps.node_holds(
                        i,
                        #[trigger] heaps.offers@[i],
                    ) by {
                        lemma_inside(i, n as int, k as int);
                        assert(heaps.lens@[i] == 0);
                        assert(heaps.heap_of(i) =~= Seq::<Candidate>::empty());
                    }
                }
                Ok(heaps)
            },
        }
    }

    /// Whether `e` is the error for node `node`, the first whose heap has room left.
    pub open spec fn is_first_short(&self, node: int, e: Error) -> bool {
        &&& 0 <= node < self.n()
        &&& self.heap_of(node).len() < self.k
        &&& forall|before: int|
            0 <= before < node ==> (#[trigger] self.heap_of(before)).len() == self.k
        &&& e is InvalidInput
        &&& e.text() == too_few_neighbours(
            node as nat,
            self.heap_of(node).len(),
            self.k as nat,
        )
    }

    /// What [`TopKHeaps::into_knn`] makes of the heaps: the table of what they hold,
    /// nearest first, if all are full, or the error for the first that is not.
    pub open spec fn is_listing(&self, r: Result<ExactKnn, Error>) -> bool {
        match r {
            Ok(knn) => {
                &&& knn.num_nodes == self.n()
                &&& knn.k == self.k
                &&& knn.wf()
                &&& forall|node: int|
                    0 <= node < self.n() ==> (#[trigger] self.heap_of(node)).len() == self.k
                &&& forall|node: int|
                    0 <= node < self.n() ==> #[trigger] lists_heap_at(
                        knn.ids@,
                        knn.distances@,
                        self.k as int,
                        self.heap_of(node),
                        node,
                    )
            },
            Err(e) => exists|node: int| #[trigger] self.is_first_short(node, e),
        }
    }

    /// Sorts each node's heap nearest-first and converts the dot products to
    /// distances.
    ///
    /// A node is short of neighbours when too few candidates compared greater
    /// than negative infinity, that is, when the input held NaNs.
    pub fn into_knn(self, n: usize) -> (r: Result<ExactKnn, Error>)
        requires
            self.holds_offers(),
            n == self.n(),
        ensures
            self.is_listing(r),
            offered_once(self.offers@) ==> is_top_table(
                scores_of(self.offers@),
                arrivals(self.offers@),
                n as int,
                self.k as int,
                r,
            ),
    {
        let k: usize = self.k;
        let mut ids: Vec<u32> = Vec::new();
        let mut distances: Vec<Single> = Vec::new();
        let mut node: usize = 0;
        while node < n
            invariant
                self.holds_offers(),
                n == self.n(),
                k == self.k,
                node <= n,
                ids@.len() == node * k,
                distances@.len() == node * k,
                forall|i: int| 0 <= i < node ==> (#[trigger] self.heap_of(i)).len() == k,
                forall|i: int|
                    0 <= i < node ==> #[trigger] lists_heap_at(
                        ids@,
                        distances@,
                        k as int,
                        self.heap_of(i),
                        i,
                    ),
            decreases n - node,
        {
            let len: usize = self.lens[node] as usize;
            let ghost heap = self.heap_of(node as int);
            proof {
                self.lemma_held(node as int);
            }
            if len != k {
                let mut message = String::from_str("exact_knn_topk: node ");
                append_decimal(&mut message, node as u64);
                message.append(" found only ");
                append_decimal(&mut message, len as u64);
                message.append(" of ");
                append_decimal(&mut message, k as u64);
                message.append(" neighbours; the partition's vectors must all be finite");
                let r = Err(Error::InvalidInput { message });
                proof {
                    assert(self.is_first_short(node as int, r->Err_0));
                    if offered_once(self.offers@) {
                        self.lemma_short(node as int, r->Err_0);
                    }
                }
                return r;
            }
            assert(self.slots.len() == self.slots@.len());
            let row = nearest_first(&self.slots, node * k, k);
            let ghost ids_before = ids@;
            let ghost distances_before = distances@;
            proof {
                assert forall|r: int| 0 <= r < k implies !(#[trigger] row@[r]).dot.is_nan() by {
                    let p = lemma_came_from(row@, heap, r);
                    assert(!heap[p].dot.is_nan());
                }
            }
            append_row(&row, &mut ids, &mut distances);
            proof {
                let lo = node * k;
                lemma_row_fits(node as int, n as int, k as int);
                assert(is_row_of(
                    ids@.subrange(lo, lo + k),
                    distances@.subrange(lo, lo + k),
                    row@,
                ));
                assert(lists_heap_at(ids@, distances@, k as int, heap, node as int));
                assert forall|i: int| 0 <= i < node implies #[trigger] lists_heap_at(
                    ids@,
                    distances@,
                    k as int,
                    self.heap_of(i),
                    i,
                ) by {
                    lemma_row_fits(i, node as int, k as int);
                    assert(lists_heap_at(
                        ids_before,
                        distances_before,
                        k as int,
                        self.heap_of(i),
                        i,
                    ));
                    assert(ids@.subrange(i * k, i * k + k) =~= ids_before.subrange(
                        i * k,
                        i * k + k,
                    ));
                    assert(distances@.subrange(i * k, i * k + k) =~= distances_before.subrange(
                        i * k,
                        i * k + k,
                    ));
                }
            }
            node += 1;
        }
        let knn = ExactKnn { num_nodes: n, k, ids, distances };
        proof {
            if offered_once(self.offers@) {
                self.lemma_top_table(knn);
            }
        }
        Ok(knn)
    }

    /// What a node holds of its offers, each made once.
    proof fn lemma_top(&self, node: int)
        requires
            self.holds_offers(),
            offered_once(self.offers@),
            0 <= node < self.n(),
        ensures
            self.heap_of(node) == stored(self.offers@[node], self.k as int),
            self.heap_of(node).len() == self.lens@[node],
            holds_top(
                self.heap_of(node),
                self.k as int,
                self.thresholds@[node],
                scores_of(self.offers@),
                node,
            ),
            ids_distinct(self.heap_of(node)),
            ids_fit(scores_of(self.offers@)),
    {
        let own = self.offers@[node];
        let seen = scores_of(self.offers@);
        self.lemma_held(node);
        assert forall|p: int| 0 <= p < own.len() implies seen[(node, (
        #[trigger] own[p]).id as int)] == own[p].dot by {
            lemma_dot_of(own, p);
        }
        lemma_stored_holds_top(own, self.k as int, seen, node);
    }

    /// A full table of heaps that hold the top of what they were compared with is
    /// exact.
    proof fn lemma_top_table(&self, knn: ExactKnn)
        requires
            self.holds_offers(),
            offered_once(self.offers@),
            knn.num_nodes == self.n(),
            knn.k == self.k,
            knn.wf(),
            forall|node: int|
                0 <= node < self.n() ==> (#[trigger] self.heap_of(node)).len() == self.k,
            forall|node: int|
                0 <= node < self.n() ==> #[trigger] lists_heap_at(
                    knn.ids@,
                    knn.distances@,
                    self.k as int,
                    self.heap_of(node),
                    node,
                ),
        ensures
            is_top_table(
                scores_of(self.offers@),
                arrivals(self.offers@),
                self.n(),
                self.k as int,
                Ok(knn),
            ),
    {
        let k = self.k as int;
        let seen = scores_of(self.offers@);
        assert forall|node: int|
            #![trigger knn.ids_of(node)]
            #![trigger admissible(seen, node)]
            #![trigger is_exact_at(knn.ids@, knn.distances@, k, seen, node)]
            0 <= node < self.n() implies {
            &&& admissible(seen, node).len() >= k
            &&& is_exact_at(knn.ids@, knn.distances@, k, seen, node)
            &&& lists_all(knn.ids_of(node), kept(arrivals(self.offers@)[node], seen, node, k))
        } by {
            let heap = self.heap_of(node);
            self.lemma_top(node);
            lemma_kept_of_offers(self.offers@, node, k);
            lemma_found(heap, k, self.thresholds@[node], seen, node);
            assert(lists_heap_at(knn.ids@, knn.distances@, k, heap, node));
            let (ids, distances) = (knn.ids_of(node), knn.distances_of(node));
            let row = choose|row: Seq<Candidate>|
                {
                    &&& row.to_multiset() == heap.to_multiset()
                    &&& is_nearest_first(row)
                    &&& #[trigger] is_row_of(ids, distances, row)
                };
            lemma_distinct_row(heap, row);
            lemma_sorted_heap_is_exact(
                heap,
                row,
                k,
                self.thresholds@[node],
                seen,
                node,
                ids,
                distances,
            );
            lemma_sorted_heap_is_listed(heap, row, ids);
        }
    }

    /// A heap with room holds all that was admissible of what it was compared with.
    proof fn lemma_short(&self, node: int, e: Error)
        requires
            self.holds_offers(),
            offered_once(self.offers@),
            self.is_first_short(node, e),
        ensures
            is_top_table(
                scores_of(self.offers@),
                arrivals(self.offers@),
                self.n(),
                self.k as int,
                Err(e),
            ),
    {
        let k = self.k as int;
        let seen = scores_of(self.offers@);
        assert forall|before: int| 0 <= before < node implies (#[trigger] admissible(
            seen,
            before,
        )).len() >= k by {
            self.lemma_top(before);
            assert(self.heap_of(before).len() == k);
            lemma_found(self.heap_of(before), k, self.thresholds@[before], seen, before);
        }
        self.lemma_top(node);
        lemma_found(self.heap_of(node), k, self.thresholds@[node], seen, node);
        assert(admissible(seen, node).len() < k);
    }
}

/// What an offer does to a heap of at most `k`. One that is no number, or negative
/// infinity, changes nothing; where there is room any other is taken in. Where there is
/// none, an offer that beats nothing of what is held changes nothing either, a tie among
/// them; one that beats something takes the place of a weakest.
pub proof fn lemma_takes_what_beats_the_weakest(heap: Seq<Candidate>, k: int, c: Candidate)
    requires
        is_heap(heap),
        heap.len() <= k,
        0 < k,
        forall|p: int|
            0 <= p < heap.len() ==> (#[trigger] heap[p]).dot.greater(Single { bits: 0xff80_0000 }),
    ensures
        !c.dot.greater(Single { bits: 0xff80_0000 }) ==> admitted(heap, k, c) == heap,
        heap.len() < k && c.dot.greater(Single { bits: 0xff80_0000 }) ==> admitted(
            heap,
            k,
            c,
        ).to_multiset() == heap.to_multiset().insert(c),
        heap.len() == k && (forall|p: int|
            0 <= p < heap.len() ==> !c.dot.greater((#[trigger] heap[p]).dot)) ==> admitted(
            heap,
            k,
            c,
        ) == heap,
        forall|weaker: int|
            heap.len() == k && 0 <= weaker < heap.len() && c.dot.greater(
                (#[trigger] heap[weaker]).dot,
            ) ==> exists|p: int|
                {
                    &&& 0 <= p < heap.len()
                    &&& forall|q: int|
                        0 <= q < heap.len() ==> !(#[trigger] heap[p]).dot.greater(
                            (#[trigger] heap[q]).dot,
                        )
                    &&& admitted(heap, k, c).to_multiset() == heap.to_multiset().remove(
                        heap[p],
                    ).insert(c)
                },
{
    broadcast use vstd::multiset::group_multiset_axioms;

    if heap.len() > 0 {
        assert(heap[0].dot.greater(Single { bits: 0xff80_0000 }));
        assert forall|q: int| 0 <= q < heap.len() implies !heap[0].dot.greater(
            (#[trigger] heap[q]).dot,
        ) by {
            lemma_root_is_least(heap, q);
        }
    }
    if heap.len() < k && c.dot.greater(Single { bits: 0xff80_0000 }) {
        lemma_pushed(heap, c);
        heap.to_multiset_ensures();
    }
    assert forall|weaker: int|
        heap.len() == k && 0 <= weaker < heap.len() && c.dot.greater(
            (#[trigger] heap[weaker]).dot,
        ) implies exists|p: int|
        {
            &&& 0 <= p < heap.len()
            &&& forall|q: int|
                0 <= q < heap.len() ==> !(#[trigger] heap[p]).dot.greater(
                    (#[trigger] heap[q]).dot,
                )
            &&& admitted(heap, k, c).to_multiset() == heap.to_multiset().remove(heap[p]).insert(c)
        } by {
        lemma_root_is_least(heap, weaker);
        lemma_replaced(heap, c);
        vstd::seq_lib::to_multiset_update(heap, 0, c);
        heap.to_multiset_ensures();
        assert(admitted(heap, k, c).to_multiset() =~= heap.to_multiset().remove(heap[0]).insert(
            c,
        ));
    }
}

} // verus!
