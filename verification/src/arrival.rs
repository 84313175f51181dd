//! The order in which candidates arrive at the nodes.
use crate::heap::Candidate;
use crate::single::Single;
use vstd::prelude::*;

verus! {

/// The numbers from `lo` up to `hi`.
pub open spec fn numbers(lo: int, hi: int) -> Seq<int> {
    Seq::new(
        if lo < hi {
            (hi - lo) as nat
        } else {
            0
        },
        |p: int| lo + p,
    )
}

/// The candidates that `pick` has for `node`.
pub open spec fn picks_of(pick: spec_fn((int, int)) -> bool, node: int) -> spec_fn(int) -> bool {
    |id: int| pick((node, id))
}

/// `before` and, besides, the candidates between `lo` and `hi` that `pick` has for
/// each node, by ascending id.
pub open spec fn with_picked(
    before: Seq<Seq<int>>,
    lo: int,
    hi: int,
    pick: spec_fn((int, int)) -> bool,
) -> Seq<Seq<int>> {
    Seq::new(
        before.len(),
        |x: int| before[x] + numbers(lo, hi).filter(picks_of(pick, x)),
    )
}

/// The last of a run is picked or not.
pub proof fn lemma_filter_last(lo: int, hi: int, p: spec_fn(int) -> bool)
    requires
        lo < hi,
    ensures
        numbers(lo, hi).filter(p) == if p(hi - 1) {
            numbers(lo, hi - 1).filter(p).push(hi - 1)
        } else {
            numbers(lo, hi - 1).filter(p)
        },
{
    reveal(Seq::filter);
    assert(numbers(lo, hi).drop_last() =~= numbers(lo, hi - 1));
    assert(numbers(lo, hi).last() == hi - 1);
}

pub proof fn lemma_filter_none(lo: int, hi: int, p: spec_fn(int) -> bool)
    requires
        forall|id: int| lo <= id < hi ==> !#[trigger] p(id),
    ensures
        numbers(lo, hi).filter(p) == Seq::<int>::empty(),
    decreases hi - lo,
{
    if lo < hi {
        lemma_filter_none(lo, hi - 1, p);
        lemma_filter_last(lo, hi, p);
    } else {
        reveal(Seq::filter);
        assert(numbers(lo, hi) =~= Seq::<int>::empty());
    }
}

/// Every picked one of a run from `lo` on is taken.
pub proof fn lemma_filter_all(lo: int, hi: int, p: spec_fn(int) -> bool)
    requires
        forall|id: int| lo <= id < hi ==> #[trigger] p(id),
    ensures
        numbers(lo, hi).filter(p) == numbers(lo, hi),
    decreases hi - lo,
{
    if lo < hi {
        lemma_filter_all(lo, hi - 1, p);
        lemma_filter_last(lo, hi, p);
        assert(numbers(lo, hi) =~= numbers(lo, hi - 1).push(hi - 1));
    } else {
        lemma_filter_none(lo, hi, p);
        assert(numbers(lo, hi) =~= Seq::<int>::empty());
    }
}

proof fn lemma_filter_alike(
    lo: int,
    hi: int,
    p: spec_fn(int) -> bool,
    q: spec_fn(int) -> bool,
)
    requires
        forall|id: int| lo <= id < hi ==> #[trigger] p(id) == q(id),
    ensures
        numbers(lo, hi).filter(p) == numbers(lo, hi).filter(q),
    decreases hi - lo,
{
    if lo < hi {
        lemma_filter_alike(lo, hi - 1, p, q);
        lemma_filter_last(lo, hi, p);
        lemma_filter_last(lo, hi, q);
        assert(p(hi - 1) == q(hi - 1));
    } else {
        assert forall|id: int| lo <= id < hi implies !#[trigger] q(id) by {}
        lemma_filter_none(lo, hi, p);
        lemma_filter_none(lo, hi, q);
    }
}

/// What is picked comes from the run.
pub proof fn lemma_filter_within(lo: int, hi: int, p: spec_fn(int) -> bool)
    ensures
        forall|at: int|
            0 <= at < numbers(lo, hi).filter(p).len() ==> lo <= (#[trigger] numbers(lo, hi).filter(
                p,
            )[at]) < hi && p(numbers(lo, hi).filter(p)[at]),
    decreases hi - lo,
{
    if lo < hi {
        lemma_filter_within(lo, hi - 1, p);
        lemma_filter_last(lo, hi, p);
        let (now, before) = (numbers(lo, hi).filter(p), numbers(lo, hi - 1).filter(p));
        assert forall|at: int| 0 <= at < now.len() implies lo <= (#[trigger] now[at]) < hi && p(
            now[at],
        ) by {
            if at < before.len() {
                assert(now[at] == before[at]);
            }
        }
    } else {
        lemma_filter_none(lo, hi, p);
    }
}

/// Two picks of which the first has only smaller numbers are picked one after the
/// other.
proof fn lemma_filter_joined(
    lo: int,
    hi: int,
    p: spec_fn(int) -> bool,
    q: spec_fn(int) -> bool,
    both: spec_fn(int) -> bool,
)
    requires
        forall|id: int| lo <= id < hi ==> #[trigger] both(id) == (p(id) || q(id)),
        forall|a: int, b: int|
            lo <= a < hi && lo <= b < hi && #[trigger] p(a) && #[trigger] q(b) ==> a < b,
    ensures
        numbers(lo, hi).filter(both) == numbers(lo, hi).filter(p) + numbers(lo, hi).filter(q),
    decreases hi - lo,
{
    if lo < hi {
        let last = hi - 1;
        lemma_filter_joined(lo, last, p, q, both);
        lemma_filter_last(lo, hi, p);
        lemma_filter_last(lo, hi, q);
        lemma_filter_last(lo, hi, both);
        assert(both(last) == (p(last) || q(last)));
        let (a, b) = (numbers(lo, last).filter(p), numbers(lo, last).filter(q));
        if q(last) {
            assert(!p(last));
            assert((a + b).push(last) =~= a + b.push(last));
        } else if p(last) {
            assert forall|id: int| lo <= id < last implies !#[trigger] q(id) by {}
            lemma_filter_none(lo, last, q);
            assert((a + b).push(last) =~= a.push(last) + b);
        }
    } else {
        lemma_filter_none(lo, hi, p);
        lemma_filter_none(lo, hi, q);
        assert forall|id: int| lo <= id < hi implies !#[trigger] both(id) by {}
        lemma_filter_none(lo, hi, both);
        assert(numbers(lo, hi).filter(p) + numbers(lo, hi).filter(q) =~= Seq::<int>::empty());
    }
}

/// A run and the next one make one run.
proof fn lemma_filter_split(lo: int, mid: int, hi: int, p: spec_fn(int) -> bool)
    requires
        lo <= mid <= hi,
    ensures
        numbers(lo, hi).filter(p) == numbers(lo, mid).filter(p) + numbers(mid, hi).filter(p),
    decreases hi - mid,
{
    if mid < hi {
        lemma_filter_split(lo, mid, hi - 1, p);
        lemma_filter_last(lo, hi, p);
        lemma_filter_last(mid, hi, p);
        let (a, b) = (numbers(lo, mid).filter(p), numbers(mid, hi - 1).filter(p));
        assert((a + b).push(hi - 1) =~= a + b.push(hi - 1));
    } else {
        lemma_filter_none(mid, hi, p);
        assert(numbers(lo, mid).filter(p) + Seq::<int>::empty() =~= numbers(lo, mid).filter(p));
    }
}

/// What lies outside a part of a run and is not picked does not count.
proof fn lemma_filter_narrowed(lo: int, hi: int, a: int, b: int, p: spec_fn(int) -> bool)
    requires
        lo <= a <= b <= hi,
        forall|id: int| lo <= id < hi && #[trigger] p(id) ==> a <= id < b,
    ensures
        numbers(lo, hi).filter(p) == numbers(a, b).filter(p),
{
    lemma_filter_split(lo, a, hi, p);
    lemma_filter_split(a, b, hi, p);
    lemma_filter_none(lo, a, p);
    lemma_filter_none(b, hi, p);
    assert(numbers(lo, hi).filter(p) =~= numbers(a, b).filter(p));
}

/// Picking a part of a run.
pub proof fn lemma_filter_part(lo: int, hi: int, a: int, b: int, p: spec_fn(int) -> bool)
    requires
        lo <= a <= b <= hi,
        forall|id: int| lo <= id < hi ==> (#[trigger] p(id) <==> a <= id < b),
    ensures
        numbers(lo, hi).filter(p) == numbers(a, b),
{
    lemma_filter_narrowed(lo, hi, a, b, p);
    lemma_filter_all(a, b, p);
}

/// Picking all of a run but one.
pub proof fn lemma_filter_without(lo: int, hi: int, one: int, p: spec_fn(int) -> bool)
    requires
        lo <= hi,
        forall|id: int| lo <= id < hi ==> (#[trigger] p(id) <==> id != one),
    ensures
        lo <= one < hi ==> numbers(lo, hi).filter(p) == numbers(lo, one) + numbers(one + 1, hi),
        !(lo <= one < hi) ==> numbers(lo, hi).filter(p) == numbers(lo, hi),
{
    if lo <= one < hi {
        lemma_filter_split(lo, one, hi, p);
        lemma_filter_all(lo, one, p);
        lemma_filter_part(one, hi, one + 1, hi, p);
    } else {
        lemma_filter_all(lo, hi, p);
    }
}

pub proof fn lemma_numbers_joined(lo: int, mid: int, hi: int)
    requires
        lo <= mid <= hi,
    ensures
        numbers(lo, mid) + numbers(mid, hi) == numbers(lo, hi),
{
    assert(numbers(lo, mid) + numbers(mid, hi) =~= numbers(lo, hi));
}

pub proof fn lemma_numbers_appended(before: Seq<int>, lo: int, mid: int, hi: int)
    requires
        lo <= mid <= hi,
    ensures
        before + numbers(lo, mid) + numbers(mid, hi) == before + numbers(lo, hi),
{
    assert(before + numbers(lo, mid) + numbers(mid, hi) =~= before + numbers(lo, hi));
}

pub proof fn lemma_nothing_appended(before: Seq<int>, lo: int, hi: int)
    requires
        hi <= lo,
    ensures
        before + numbers(lo, hi) == before,
{
    assert(before + numbers(lo, hi) =~= before);
}

/// Picks that are the same for every node make the same arrivals.
proof fn lemma_picked_alike(
    before: Seq<Seq<int>>,
    lo: int,
    hi: int,
    p: spec_fn((int, int)) -> bool,
    q: spec_fn((int, int)) -> bool,
)
    requires
        forall|x: (int, int)|
            0 <= x.0 < before.len() && lo <= x.1 < hi ==> #[trigger] p(x) == q(x),
    ensures
        with_picked(before, lo, hi, p) == with_picked(before, lo, hi, q),
{
    assert forall|x: int| 0 <= x < before.len() implies with_picked(before, lo, hi, p)[x]
        == with_picked(before, lo, hi, q)[x] by {
        assert forall|id: int| lo <= id < hi implies #[trigger] picks_of(p, x)(id) == picks_of(
            q,
            x,
        )(id) by {
            assert(p((x, id)) == q((x, id)));
        }
        lemma_filter_alike(lo, hi, picks_of(p, x), picks_of(q, x));
    }
    assert(with_picked(before, lo, hi, p) =~= with_picked(before, lo, hi, q));
}

/// Where nothing is picked nothing arrives.
proof fn lemma_picked_none(
    before: Seq<Seq<int>>,
    lo: int,
    hi: int,
    p: spec_fn((int, int)) -> bool,
)
    requires
        forall|x: (int, int)| 0 <= x.0 < before.len() && lo <= x.1 < hi ==> !#[trigger] p(x),
    ensures
        with_picked(before, lo, hi, p) == before,
{
    assert forall|x: int| 0 <= x < before.len() implies with_picked(before, lo, hi, p)[x]
        == before[x] by {
        assert forall|id: int| lo <= id < hi implies !#[trigger] picks_of(p, x)(id) by {
            assert(!p((x, id)));
        }
        lemma_filter_none(lo, hi, picks_of(p, x));
        assert(before[x] + Seq::<int>::empty() =~= before[x]);
    }
    assert(with_picked(before, lo, hi, p) =~= before);
}

/// One more candidate for one node, with a larger id than those before it.
proof fn lemma_picked_next(
    before: Seq<Seq<int>>,
    lo: int,
    hi: int,
    p: spec_fn((int, int)) -> bool,
    q: spec_fn((int, int)) -> bool,
    node: int,
    id: int,
)
    requires
        0 <= node < before.len(),
        lo <= id < hi,
        !p((node, id)),
        forall|x: (int, int)|
            0 <= x.0 < before.len() && lo <= x.1 < hi ==> #[trigger] q(x) == (p(x) || x == (
                node,
                id,
            )),
        forall|other: int| lo <= other < hi && #[trigger] p((node, other)) ==> other < id,
    ensures
        with_picked(before, lo, hi, q) == with_picked(before, lo, hi, p).update(
            node,
            with_picked(before, lo, hi, p)[node].push(id),
        ),
{
    let (now, then) = (with_picked(before, lo, hi, q), with_picked(before, lo, hi, p));
    assert forall|x: int| 0 <= x < before.len() implies now[x] == then.update(
        node,
        then[node].push(id),
    )[x] by {
        let (a, b) = (picks_of(p, x), picks_of(q, x));
        if x == node {
            let one = |other: int| other == id;
            assert forall|other: int| lo <= other < hi implies #[trigger] b(other) == (a(other)
                || one(other)) by {
                assert(q((x, other)) == (p((x, other)) || (x, other) == (node, id)));
            }
            assert forall|u: int, v: int|
                lo <= u < hi && lo <= v < hi && #[trigger] a(u) && #[trigger] one(v) implies u
                < v by {
                assert(p((node, u)));
            }
            lemma_filter_joined(lo, hi, a, one, b);
            lemma_filter_narrowed(lo, hi, id, id + 1, one);
            lemma_filter_all(id, id + 1, one);
            assert(numbers(id, id + 1) =~= seq![id]);
            assert(before[x] + (numbers(lo, hi).filter(a) + seq![id]) =~= (before[x] + numbers(
                lo,
                hi,
            ).filter(a)).push(id));
        } else {
            assert forall|other: int| lo <= other < hi implies #[trigger] b(other) == a(other) by {
                assert(q((x, other)) == (p((x, other)) || (x, other) == (node, id)));
            }
            lemma_filter_alike(lo, hi, b, a);
        }
    }
    assert(now =~= then.update(node, then[node].push(id)));
}

/// Two picks one after the other, of which the first has only smaller ids, make
/// the arrivals of both.
proof fn lemma_picked_joined(
    before: Seq<Seq<int>>,
    lo: int,
    hi: int,
    p: spec_fn((int, int)) -> bool,
    a: int,
    b: int,
    q: spec_fn((int, int)) -> bool,
    both: spec_fn((int, int)) -> bool,
)
    requires
        lo <= a <= b <= hi,
        forall|x: (int, int)|
            0 <= x.0 < before.len() && lo <= x.1 < hi ==> #[trigger] both(x) == (p(x) || q(x)),
        forall|x: (int, int)|
            0 <= x.0 < before.len() && lo <= x.1 < hi && #[trigger] q(x) ==> a <= x.1 < b,
        forall|node: int, u: int, v: int|
            0 <= node < before.len() && lo <= u < hi && lo <= v < hi && #[trigger] p((node, u))
                && #[trigger] q((node, v)) ==> u < v,
    ensures
        with_picked(with_picked(before, lo, hi, p), a, b, q) == with_picked(before, lo, hi, both),
{
    let mid = with_picked(before, lo, hi, p);
    assert forall|x: int| 0 <= x < before.len() implies with_picked(mid, a, b, q)[x]
        == with_picked(before, lo, hi, both)[x] by {
        let (f, g, h) = (picks_of(p, x), picks_of(q, x), picks_of(both, x));
        assert forall|id: int| lo <= id < hi implies #[trigger] h(id) == (f(id) || g(id)) by {
            assert(both((x, id)) == (p((x, id)) || q((x, id))));
        }
        assert forall|u: int, v: int|
            lo <= u < hi && lo <= v < hi && #[trigger] f(u) && #[trigger] g(v) implies u < v by {
            assert(p((x, u)) && q((x, v)));
        }
        lemma_filter_joined(lo, hi, f, g, h);
        assert forall|id: int| lo <= id < hi && #[trigger] g(id) implies a <= id < b by {
            assert(q((x, id)));
        }
        lemma_filter_narrowed(lo, hi, a, b, g);
        assert((before[x] + numbers(lo, hi).filter(f)) + numbers(a, b).filter(g) =~= before[x] + (
        numbers(lo, hi).filter(f) + numbers(lo, hi).filter(g)));
    }
    assert(with_picked(mid, a, b, q) =~= with_picked(before, lo, hi, both));
}

/// A number of a run is picked once where it is picked, and what is picked ascends.
pub proof fn lemma_filter_holds(lo: int, hi: int, p: spec_fn(int) -> bool)
    ensures
        forall|id: int| #[trigger]
            numbers(lo, hi).filter(p).contains(id) <==> lo <= id < hi && p(id),
        forall|at: int, then: int|
            0 <= at < then < numbers(lo, hi).filter(p).len() ==> (#[trigger] numbers(lo, hi).filter(
                p,
            )[at]) < (#[trigger] numbers(lo, hi).filter(p)[then]),
    decreases hi - lo,
{
    let now = numbers(lo, hi).filter(p);
    if lo < hi {
        let before = numbers(lo, hi - 1).filter(p);
        lemma_filter_holds(lo, hi - 1, p);
        lemma_filter_last(lo, hi, p);
        lemma_filter_within(lo, hi - 1, p);
        assert forall|id: int| #[trigger] now.contains(id) <==> lo <= id < hi && p(id) by {
            if now.contains(id) {
                let at = choose|at: int| 0 <= at < now.len() && now[at] == id;
                if at < before.len() {
                    assert(before[at] == id);
                    assert(before.contains(id));
                }
            }
            if lo <= id < hi && p(id) {
                if id < hi - 1 {
                    assert(before.contains(id));
                    let at = choose|at: int| 0 <= at < before.len() && before[at] == id;
                    assert(now[at] == id);
                } else {
                    assert(now[now.len() - 1] == id);
                }
            }
        }
        assert forall|at: int, then: int| 0 <= at < then < now.len() implies (#[trigger] now[at])
            < (#[trigger] now[then]) by {
            assert(now[at] == before[at]);
            if then < before.len() {
                assert(now[then] == before[then]);
            }
        }
    } else {
        lemma_filter_none(lo, hi, p);
    }
}

/// The candidates `ids` of a node, at the scores that `value` gives its pairs.
pub open spec fn candidates(
    ids: Seq<int>,
    node: int,
    value: spec_fn((int, int)) -> Single,
) -> Seq<Candidate> {
    Seq::new(ids.len(), |p: int| Candidate { dot: value((node, ids[p])), id: ids[p] as u32 })
}

/// The candidates between `lo` and `hi` that `pick` has for `node`, by ascending id.
pub open spec fn picked_for(
    lo: int,
    hi: int,
    pick: spec_fn((int, int)) -> bool,
    value: spec_fn((int, int)) -> Single,
    node: int,
) -> Seq<Candidate> {
    candidates(numbers(lo, hi).filter(picks_of(pick, node)), node, value)
}

/// `before` and, besides, for each node the candidates of [`picked_for`].
pub open spec fn with_offered(
    before: Seq<Seq<Candidate>>,
    lo: int,
    hi: int,
    pick: spec_fn((int, int)) -> bool,
    value: spec_fn((int, int)) -> Single,
) -> Seq<Seq<Candidate>> {
    Seq::new(before.len(), |x: int| before[x] + picked_for(lo, hi, pick, value, x))
}

/// No candidates for any of `n` nodes.
spec fn nothing(n: nat) -> Seq<Seq<int>> {
    Seq::new(n, |x: int| Seq::<int>::empty())
}

/// What arrives at nodes that had nothing is what is picked.
proof fn lemma_picked_of_nothing(n: nat, lo: int, hi: int, p: spec_fn((int, int)) -> bool, x: int)
    requires
        0 <= x < n,
    ensures
        with_picked(nothing(n), lo, hi, p)[x] == numbers(lo, hi).filter(picks_of(p, x)),
{
    assert(with_picked(nothing(n), lo, hi, p)[x] =~= numbers(lo, hi).filter(picks_of(p, x)));
}

/// Picks that are the same for every node make the same offers.
pub proof fn lemma_offered_alike(
    before: Seq<Seq<Candidate>>,
    lo: int,
    hi: int,
    p: spec_fn((int, int)) -> bool,
    q: spec_fn((int, int)) -> bool,
    value: spec_fn((int, int)) -> Single,
)
    requires
        forall|x: (int, int)|
            0 <= x.0 < before.len() && lo <= x.1 < hi ==> #[trigger] p(x) == q(x),
    ensures
        with_offered(before, lo, hi, p, value) == with_offered(before, lo, hi, q, value),
{
    let n = before.len();
    lemma_picked_alike(nothing(n), lo, hi, p, q);
    assert forall|x: int| 0 <= x < n implies with_offered(before, lo, hi, p, value)[x]
        == with_offered(before, lo, hi, q, value)[x] by {
        lemma_picked_of_nothing(n, lo, hi, p, x);
        lemma_picked_of_nothing(n, lo, hi, q, x);
    }
    assert(with_offered(before, lo, hi, p, value) =~= with_offered(before, lo, hi, q, value));
}

/// Scores that are the same for what is picked make the same offers.
pub proof fn lemma_offered_valued(
    before: Seq<Seq<Candidate>>,
    lo: int,
    hi: int,
    p: spec_fn((int, int)) -> bool,
    value: spec_fn((int, int)) -> Single,
    other: spec_fn((int, int)) -> Single,
)
    requires
        forall|x: (int, int)|
            0 <= x.0 < before.len() && lo <= x.1 < hi && #[trigger] p(x) ==> value(x) == other(x),
    ensures
        with_offered(before, lo, hi, p, value) == with_offered(before, lo, hi, p, other),
{
    assert forall|x: int| 0 <= x < before.len() implies with_offered(before, lo, hi, p, value)[x]
        == with_offered(before, lo, hi, p, other)[x] by {
        let f = picks_of(p, x);
        let run = numbers(lo, hi).filter(f);
        lemma_filter_within(lo, hi, f);
        assert forall|at: int| 0 <= at < run.len() implies value((x, #[trigger] run[at])) == other(
            (x, run[at]),
        ) by {
            assert(p((x, run[at])));
        }
        assert(candidates(run, x, value) =~= candidates(run, x, other));
    }
    assert(with_offered(before, lo, hi, p, value) =~= with_offered(before, lo, hi, p, other));
}

/// Where nothing is picked nothing is offered.
pub proof fn lemma_offered_none(
    before: Seq<Seq<Candidate>>,
    lo: int,
    hi: int,
    p: spec_fn((int, int)) -> bool,
    value: spec_fn((int, int)) -> Single,
)
    requires
        forall|x: (int, int)| 0 <= x.0 < before.len() && lo <= x.1 < hi ==> !#[trigger] p(x),
    ensures
        with_offered(before, lo, hi, p, value) == before,
{
    let n = before.len();
    lemma_picked_none(nothing(n), lo, hi, p);
    assert forall|x: int| 0 <= x < n implies with_offered(before, lo, hi, p, value)[x]
        == before[x] by {
        lemma_picked_of_nothing(n, lo, hi, p, x);
        assert(before[x] + picked_for(lo, hi, p, value, x) =~= before[x]);
    }
    assert(with_offered(before, lo, hi, p, value) =~= before);
}

/// One more candidate for one node, with a larger id than those before it.
pub proof fn lemma_offered_next(
    before: Seq<Seq<Candidate>>,
    lo: int,
    hi: int,
    p: spec_fn((int, int)) -> bool,
    q: spec_fn((int, int)) -> bool,
    value: spec_fn((int, int)) -> Single,
    node: int,
    id: int,
)
    requires
        0 <= node < before.len(),
        lo <= id < hi,
        !p((node, id)),
        forall|x: (int, int)|
            0 <= x.0 < before.len() && lo <= x.1 < hi ==> #[trigger] q(x) == (p(x) || x == (
                node,
                id,
            )),
        forall|other: int| lo <= other < hi && #[trigger] p((node, other)) ==> other < id,
    ensures
        with_offered(before, lo, hi, q, value) == with_offered(before, lo, hi, p, value).update(
            node,
            with_offered(before, lo, hi, p, value)[node].push(
                Candidate { dot: value((node, id)), id: id as u32 },
            ),
        ),
{
    let n = before.len();
    let (now, then) = (
        with_offered(before, lo, hi, q, value),
        with_offered(before, lo, hi, p, value),
    );
    let c = Candidate { dot: value((node, id)), id: id as u32 };
    lemma_picked_next(nothing(n), lo, hi, p, q, node, id);
    assert forall|x: int| 0 <= x < n implies now[x] == then.update(node, then[node].push(c))[x] by {
        lemma_picked_of_nothing(n, lo, hi, p, x);
        lemma_picked_of_nothing(n, lo, hi, q, x);
        if x == node {
            assert(now[x] =~= then[node].push(c));
        }
    }
    assert(now =~= then.update(node, then[node].push(c)));
}

/// Two picks one after the other, of which the first has only smaller ids, make the
/// offers of both.
pub proof fn lemma_offered_joined(
    before: Seq<Seq<Candidate>>,
    lo: int,
    hi: int,
    p: spec_fn((int, int)) -> bool,
    a: int,
    b: int,
    q: spec_fn((int, int)) -> bool,
    both: spec_fn((int, int)) -> bool,
    value: spec_fn((int, int)) -> Single,
)
    requires
        lo <= a <= b <= hi,
        forall|x: (int, int)|
            0 <= x.0 < before.len() && lo <= x.1 < hi ==> #[trigger] both(x) == (p(x) || q(x)),
        forall|x: (int, int)|
            0 <= x.0 < before.len() && lo <= x.1 < hi && #[trigger] q(x) ==> a <= x.1 < b,
        forall|node: int, u: int, v: int|
            0 <= node < before.len() && lo <= u < hi && lo <= v < hi && #[trigger] p((node, u))
                && #[trigger] q((node, v)) ==> u < v,
    ensures
        with_offered(with_offered(before, lo, hi, p, value), a, b, q, value) == with_offered(
            before,
            lo,
            hi,
            both,
            value,
        ),
{
    let n = before.len();
    let mid = with_offered(before, lo, hi, p, value);
    lemma_picked_joined(nothing(n), lo, hi, p, a, b, q, both);
    assert forall|x: int| 0 <= x < n implies with_offered(mid, a, b, q, value)[x] == with_offered(
        before,
        lo,
        hi,
        both,
        value,
    )[x] by {
        let f = numbers(lo, hi).filter(picks_of(p, x));
        let g = numbers(a, b).filter(picks_of(q, x));
        lemma_picked_of_nothing(n, lo, hi, p, x);
        lemma_picked_of_nothing(n, lo, hi, both, x);
        assert(with_picked(with_picked(nothing(n), lo, hi, p), a, b, q)[x] == f + g);
        assert((before[x] + candidates(f, x, value)) + candidates(g, x, value) =~= before[x]
            + candidates(f + g, x, value));
    }
    assert(with_offered(mid, a, b, q, value) =~= with_offered(before, lo, hi, both, value));
}

} // verus!
