//! Min-heaps of candidates, each a run of slots inside a shared vector.
use crate::single::Single;
use vstd::prelude::*;

verus! {

/// A neighbour while the top-k is still being accumulated: the raw dot product
/// (larger is nearer, so the heap below is a min-heap on it) and its node.
#[derive(Clone, Copy, Debug, PartialEq, Eq, Structural)]
pub struct Candidate {
    pub dot: Single,
    pub id: u32,
}

/// Whether no slot of `heap` holds a smaller dot product than its parent, slot
/// `(c - 1) / 2` being the parent of slot `c`, and none holds a NaN.
pub open spec fn is_heap(heap: Seq<Candidate>) -> bool {
    &&& all_comparable(heap)
    &&& forall|p: int, c: int|
        0 < c < heap.len() && p == (c - 1) / 2 ==> (#[trigger] heap[p]).dot.rank() <= (
        #[trigger] heap[c]).dot.rank()
}

pub open spec fn all_comparable(heap: Seq<Candidate>) -> bool {
    forall|c: int| 0 <= c < heap.len() ==> !(#[trigger] heap[c]).dot.is_nan()
}

/// The root of a heap holds its smallest dot product.
pub proof fn lemma_root_is_least(heap: Seq<Candidate>, c: int)
    requires
        is_heap(heap),
        0 <= c < heap.len(),
    ensures
        heap[0].dot.rank() <= heap[c].dot.rank(),
    decreases c,
{
    if c > 0 {
        lemma_root_is_least(heap, (c - 1) / 2);
    }
}

/// `run` with two of its slots exchanged.
pub open spec fn exchanged(run: Seq<Candidate>, a: int, b: int) -> Seq<Candidate> {
    run.update(a, run[b]).update(b, run[a])
}

/// `run` with slot `child` lifted past every parent that holds a larger dot
/// product.
pub open spec fn lifted(run: Seq<Candidate>, child: int) -> Seq<Candidate>
    decreases child,
{
    if child <= 0 || run[(child - 1) / 2].dot.rank() <= run[child].dot.rank() {
        run
    } else {
        lifted(exchanged(run, child, (child - 1) / 2), (child - 1) / 2)
    }
}

/// The child of slot `parent` with the smaller dot product, the left one on a tie.
pub open spec fn smaller_child(run: Seq<Candidate>, parent: int) -> int {
    let left = 2 * parent + 1;
    if left + 1 < run.len() && run[left].dot.rank() > run[left + 1].dot.rank() {
        left + 1
    } else {
        left
    }
}

/// `run` with slot `parent` sunk past every smaller child that holds a smaller dot
/// product.
pub open spec fn sunk(run: Seq<Candidate>, parent: int) -> Seq<Candidate>
    decreases run.len() - parent,
{
    let child = smaller_child(run, parent);
    if parent < 0 || 2 * parent + 1 >= run.len() || run[parent].dot.rank()
        <= run[child].dot.rank() {
        run
    } else {
        sunk(exchanged(run, parent, child), child)
    }
}

/// A heap with `c` added: appended, then lifted to its place.
pub open spec fn pushed(heap: Seq<Candidate>, c: Candidate) -> Seq<Candidate> {
    lifted(heap.push(c), heap.len() as int)
}

/// A heap with `c` in place of its root, then sunk to its place.
pub open spec fn replaced(heap: Seq<Candidate>, c: Candidate) -> Seq<Candidate> {
    sunk(heap.update(0, c), 0)
}

/// A heap but for slot `hole`, which may be smaller than its parent; the
/// children of that slot are no smaller than its parent either.
spec fn all_but_up(heap: Seq<Candidate>, hole: int) -> bool {
    &&& all_comparable(heap)
    &&& forall|c: int|
        0 < c < heap.len() && c != hole ==> heap[(c - 1) / 2].dot.rank() <= #[trigger] heap[c].dot.rank()
    &&& forall|c: int|
        0 < c < heap.len() && (c - 1) / 2 == hole && hole > 0 ==> heap[(hole - 1) / 2].dot.rank()
            <= #[trigger] heap[c].dot.rank()
}

/// A heap but for slot `hole`, which may be larger than its children; those are
/// no smaller than its parent.
spec fn all_but_down(heap: Seq<Candidate>, hole: int) -> bool {
    &&& all_comparable(heap)
    &&& forall|c: int|
        0 < c < heap.len() && (c - 1) / 2 != hole ==> heap[(c - 1) / 2].dot.rank()
            <= #[trigger] heap[c].dot.rank()
    &&& forall|c: int|
        0 < c < heap.len() && (c - 1) / 2 == hole && hole > 0 ==> heap[(hole - 1) / 2].dot.rank()
            <= #[trigger] heap[c].dot.rank()
}

/// Exchanging two slots changes the order alone.
proof fn lemma_exchanged(run: Seq<Candidate>, a: int, b: int)
    requires
        0 <= a < run.len(),
        0 <= b < run.len(),
        a != b,
    ensures
        exchanged(run, a, b).to_multiset() == run.to_multiset(),
        all_comparable(run) ==> all_comparable(exchanged(run, a, b)),
{
    broadcast use vstd::multiset::group_multiset_axioms;

    let (x, y) = (run[a], run[b]);
    vstd::seq_lib::to_multiset_update(run, a, y);
    vstd::seq_lib::to_multiset_update(run.update(a, y), b, x);
    run.to_multiset_ensures();
    assert(run.contains(x) && run.contains(y));
    assert(exchanged(run, a, b).to_multiset() =~= run.to_multiset());
}

/// Lifting the one slot that is out of place makes a heap of the same candidates.
proof fn lemma_lifted(run: Seq<Candidate>, child: int)
    requires
        0 <= child < run.len(),
        all_but_up(run, child),
    ensures
        is_heap(lifted(run, child)),
        lifted(run, child).to_multiset() == run.to_multiset(),
        lifted(run, child).len() == run.len(),
    decreases child,
{
    if child > 0 && run[(child - 1) / 2].dot.rank() > run[child].dot.rank() {
        let parent = (child - 1) / 2;
        let next = exchanged(run, child, parent);
        lemma_exchanged(run, child, parent);
        assert forall|c: int| 0 < c < next.len() && c != parent implies next[(c
            - 1) / 2].dot.rank() <= #[trigger] next[c].dot.rank() by {
            assert(run[(c - 1) / 2].dot.rank() <= run[c].dot.rank() || c == child);
        }
        assert forall|c: int|
            0 < c < next.len() && (c - 1) / 2 == parent && parent > 0 implies next[(parent
            - 1) / 2].dot.rank() <= #[trigger] next[c].dot.rank() by {
            assert(run[(parent - 1) / 2].dot.rank() <= run[parent].dot.rank());
            assert(run[(c - 1) / 2].dot.rank() <= run[c].dot.rank() || c == child);
        }
        lemma_lifted(next, parent);
    }
}

/// Sinking the one slot that is out of place makes a heap of the same candidates.
proof fn lemma_sunk(run: Seq<Candidate>, hole: int)
    requires
        0 <= hole < run.len(),
        all_but_down(run, hole),
    ensures
        is_heap(sunk(run, hole)),
        sunk(run, hole).to_multiset() == run.to_multiset(),
        sunk(run, hole).len() == run.len(),
    decreases run.len() - hole,
{
    let child = smaller_child(run, hole);
    if 2 * hole + 1 < run.len() {
        assert forall|c: int| 0 < c < run.len() && (c - 1) / 2 == hole implies run[child].dot.rank()
            <= #[trigger] run[c].dot.rank() by {
            assert(c == 2 * hole + 1 || c == 2 * hole + 2);
        }
        if run[hole].dot.rank() > run[child].dot.rank() {
            lemma_exchanged(run, hole, child);
            lemma_hole_moved(run, hole, child);
            lemma_sunk(exchanged(run, hole, child), child);
        }
    }
}

proof fn lemma_hole_moved(run: Seq<Candidate>, hole: int, child: int)
    requires
        0 <= hole < child < run.len(),
        (child - 1) / 2 == hole,
        all_but_down(run, hole),
        forall|c: int|
            0 < c < run.len() && (c - 1) / 2 == hole ==> run[child].dot.rank()
                <= #[trigger] run[c].dot.rank(),
        run[child].dot.rank() <= run[hole].dot.rank(),
    ensures
        all_but_down(exchanged(run, hole, child), child),
{
    let next = exchanged(run, hole, child);
    assert forall|c: int| 0 < c < next.len() && (c - 1) / 2 != child implies next[(c
        - 1) / 2].dot.rank() <= #[trigger] next[c].dot.rank() by {
        if (c - 1) / 2 == hole {
            assert(run[child].dot.rank() <= run[c].dot.rank());
        } else if c == hole {
            assert(run[(hole - 1) / 2].dot.rank() <= run[child].dot.rank());
        } else {
            assert(run[(c - 1) / 2].dot.rank() <= run[c].dot.rank());
        }
    }
    assert forall|c: int| 0 < c < next.len() && (c - 1) / 2 == child implies next[(child
        - 1) / 2].dot.rank() <= #[trigger] next[c].dot.rank() by {
        assert(run[(c - 1) / 2].dot.rank() <= run[c].dot.rank());
    }
}

/// Adding to a heap keeps it one.
pub proof fn lemma_pushed(heap: Seq<Candidate>, c: Candidate)
    requires
        is_heap(heap),
        !c.dot.is_nan(),
    ensures
        is_heap(pushed(heap, c)),
        pushed(heap, c).to_multiset() == heap.push(c).to_multiset(),
        pushed(heap, c).len() == heap.len() + 1,
{
    let run = heap.push(c);
    let last = heap.len() as int;
    assert forall|x: int| 0 < x < run.len() && x != last implies run[(x - 1) / 2].dot.rank()
        <= #[trigger] run[x].dot.rank() by {
        assert(heap[(x - 1) / 2].dot.rank() <= heap[x].dot.rank());
    }
    assert(all_comparable(run)) by {
        assert forall|x: int| 0 <= x < run.len() implies !(#[trigger] run[x]).dot.is_nan() by {
            if x < last {
                assert(!heap[x].dot.is_nan());
            }
        }
    }
    lemma_lifted(run, last);
}

/// Replacing the root of a heap keeps it one.
pub proof fn lemma_replaced(heap: Seq<Candidate>, c: Candidate)
    requires
        is_heap(heap),
        heap.len() > 0,
        !c.dot.is_nan(),
    ensures
        is_heap(replaced(heap, c)),
        replaced(heap, c).to_multiset() == heap.update(0, c).to_multiset(),
        replaced(heap, c).len() == heap.len(),
{
    let run = heap.update(0, c);
    assert forall|x: int| 0 < x < run.len() && (x - 1) / 2 != 0 implies run[(x - 1) / 2].dot.rank()
        <= #[trigger] run[x].dot.rank() by {
        assert(heap[(x - 1) / 2].dot.rank() <= heap[x].dot.rank());
    }
    assert(all_comparable(run)) by {
        assert forall|x: int| 0 <= x < run.len() implies !(#[trigger] run[x]).dot.is_nan() by {
            assert(!heap[x].dot.is_nan());
        }
    }
    lemma_sunk(run, 0);
}

/// Whether `slots` differs from `before` inside the run of `len` slots at `base`
/// alone.
pub open spec fn keeps_outside(
    before: Seq<Candidate>,
    slots: Seq<Candidate>,
    base: int,
    len: int,
) -> bool {
    &&& slots.len() == before.len()
    &&& forall|p: int|
        0 <= p < slots.len() && !(base <= p < base + len) ==> #[trigger] slots[p] == before[p]
}

proof fn lemma_kept_outside(
    before: Seq<Candidate>,
    mid: Seq<Candidate>,
    slots: Seq<Candidate>,
    base: int,
    len: int,
)
    requires
        keeps_outside(before, mid, base, len),
        keeps_outside(mid, slots, base, len),
    ensures
        keeps_outside(before, slots, base, len),
{
}

/// Swaps two slots of the run of `len` slots at `base`.
fn swap(slots: &mut Vec<Candidate>, base: usize, len: usize, a: usize, b: usize)
    requires
        base + len <= old(slots)@.len(),
        a < len,
        b < len,
        a != b,
    ensures
        final(slots)@.subrange(base as int, base + len) == exchanged(
            old(slots)@.subrange(base as int, base + len),
            a as int,
            b as int,
        ),
        keeps_outside(old(slots)@, final(slots)@, base as int, len as int),
{
    let ghost run = slots@.subrange(base as int, base + len);
    assert(slots.len() == slots@.len());
    let x: Candidate = slots[base + a];
    let y: Candidate = slots[base + b];
    slots[base + a] = y;
    slots[base + b] = x;
    assert(slots@.subrange(base as int, base + len) =~= exchanged(run, a as int, b as int));
}

/// Restores the min-heap property after the last slot of the run of `len`
/// slots at `base` was appended.
pub fn sift_up(slots: &mut Vec<Candidate>, base: usize, len: usize)
    requires
        0 < len,
        base + len <= old(slots)@.len(),
        is_heap(old(slots)@.subrange(base as int, base + len - 1)),
        !old(slots)@[base + len - 1].dot.is_nan(),
    ensures
        keeps_outside(old(slots)@, final(slots)@, base as int, len as int),
        final(slots)@.subrange(base as int, base + len) == lifted(
            old(slots)@.subrange(base as int, base + len),
            len - 1,
        ),
        is_heap(final(slots)@.subrange(base as int, base + len)),
{
    let mut child: usize = len - 1;
    let ghost b = base as int;
    let ghost e = base + len;
    let ghost first = slots@.subrange(b, e);
    proof {
        let short = slots@.subrange(b, e - 1);
        assert(first =~= short.push(first[len - 1]));
        lemma_pushed(short, first[len - 1]);
        assert forall|c: int| 0 <= c < len implies !(#[trigger] first[c]).dot.is_nan() by {
            if c < len - 1 {
                assert(!short[c].dot.is_nan());
            }
        }
    }
    while child > 0
        invariant_except_break
            lifted(slots@.subrange(b, e), child as int) == lifted(first, len - 1),
        invariant
            child < len,
            b == base,
            e == base + len,
            e <= slots@.len(),
            all_comparable(slots@.subrange(b, e)),
            keeps_outside(old(slots)@, slots@, b, len as int),
        ensures
            slots@.subrange(b, e) == lifted(first, len - 1),
        decreases child,
    {
        let parent: usize = (child - 1) / 2;
        let ghost run = slots@.subrange(b, e);
        assert(slots.len() == slots@.len());
        assert(run[child as int] == slots@[base + child]);
        assert(run[parent as int] == slots@[base + parent]);
        if slots[base + child].dot.ge(slots[base + parent].dot) {
            break ;
        }
        proof {
            lemma_exchanged(run, child as int, parent as int);
        }
        swap(slots, base, len, child, parent);
        child = parent;
    }
}

/// Restores the min-heap property after the root of the run of `len` slots at
/// `base` was replaced.
pub fn sift_down(slots: &mut Vec<Candidate>, base: usize, len: usize)
    requires
        base + len <= old(slots)@.len(),
        all_comparable(old(slots)@.subrange(base as int, base + len)),
        forall|c: int|
            0 < c < len && (c - 1) / 2 != 0 ==> old(slots)@[base + (c - 1) / 2].dot.rank()
                <= #[trigger] old(slots)@[base + c].dot.rank(),
    ensures
        keeps_outside(old(slots)@, final(slots)@, base as int, len as int),
        final(slots)@.subrange(base as int, base + len) == sunk(
            old(slots)@.subrange(base as int, base + len),
            0,
        ),
        is_heap(final(slots)@.subrange(base as int, base + len)),
{
    if len == 0 {
        return ;
    }
    let mut parent: usize = 0;
    let ghost b = base as int;
    let ghost e = base + len;
    let ghost first = slots@.subrange(b, e);
    proof {
        assert forall|c: int| 0 < c < first.len() && (c - 1) / 2 != 0 implies first[(c
            - 1) / 2].dot.rank() <= #[trigger] first[c].dot.rank() by {
            assert(slots@[base + (c - 1) / 2].dot.rank() <= slots@[base + c].dot.rank());
        }
        lemma_sunk(first, 0);
    }
    loop
        invariant_except_break
            sunk(slots@.subrange(b, e), parent as int) == sunk(first, 0),
        invariant
            parent < len,
            b == base,
            e == base + len,
            e <= slots@.len(),
            all_comparable(slots@.subrange(b, e)),
            keeps_outside(old(slots)@, slots@, b, len as int),
        ensures
            slots@.subrange(b, e) == sunk(first, 0),
        decreases len - parent,
    {
        assert(slots.len() == slots@.len());
        let ghost run = slots@.subrange(b, e);
        assert forall|c: int| 0 <= c < len implies #[trigger] run[c] == slots@[base + c] by {}
        if parent >= len - 1 - parent {
            break ;
        }
        let left: usize = 2 * parent + 1;
        let right: usize = left + 1;
        let smaller: usize = if right < len && slots[base + left].dot.gt(slots[base + right].dot) {
            right
        } else {
            left
        };
        proof {
            assert(!run[left as int].dot.is_nan() && !run[parent as int].dot.is_nan());
            assert(right < len ==> !run[right as int].dot.is_nan());
            assert(smaller == smaller_child(run, parent as int));
        }
        if slots[base + smaller].dot.ge(slots[base + parent].dot) {
            break ;
        }
        proof {
            lemma_exchanged(run, parent as int, smaller as int);
        }
        swap(slots, base, len, parent, smaller);
        parent = smaller;
    }
}

/// Writing the slot after a run appends to it.
proof fn lemma_slot_joins(slots: Seq<Candidate>, base: int, len: int, c: Candidate)
    requires
        0 <= base,
        0 <= len,
        base + len < slots.len(),
    ensures
        slots.update(base + len, c).subrange(base, base + len) == slots.subrange(base, base + len),
        slots.update(base + len, c).subrange(base, base + len + 1) == slots.subrange(
            base,
            base + len,
        ).push(c),
        keeps_outside(slots, slots.update(base + len, c), base, len + 1),
{
    let now = slots.update(base + len, c);
    assert(now.subrange(base, base + len) =~= slots.subrange(base, base + len));
    assert(now.subrange(base, base + len + 1) =~= slots.subrange(base, base + len).push(c));
}

/// Adds `c` to the heap in the `len` slots at `base`, which the slot after them
/// joins.
pub fn push(slots: &mut Vec<Candidate>, base: usize, len: usize, c: Candidate)
    requires
        base + len < old(slots)@.len(),
        is_heap(old(slots)@.subrange(base as int, base + len)),
        !c.dot.is_nan(),
    ensures
        keeps_outside(old(slots)@, final(slots)@, base as int, len + 1),
        final(slots)@.subrange(base as int, base + len + 1) == pushed(
            old(slots)@.subrange(base as int, base + len),
            c,
        ),
{
    let ghost before = slots@;
    assert(slots.len() == slots@.len());
    slots[base + len] = c;
    proof {
        lemma_slot_joins(before, base as int, len as int, c);
        assert(slots@ == before.update(base + len, c));
    }
    let ghost written = slots@;
    sift_up(slots, base, len + 1);
    proof {
        lemma_kept_outside(before, written, slots@, base as int, len + 1);
    }
}

/// Puts `c` in place of the root of the heap in the `len` slots at `base`.
pub fn replace_root(slots: &mut Vec<Candidate>, base: usize, len: usize, c: Candidate)
    requires
        0 < len,
        base + len <= old(slots)@.len(),
        is_heap(old(slots)@.subrange(base as int, base + len)),
        !c.dot.is_nan(),
    ensures
        keeps_outside(old(slots)@, final(slots)@, base as int, len as int),
        final(slots)@.subrange(base as int, base + len) == replaced(
            old(slots)@.subrange(base as int, base + len),
            c,
        ),
{
    let ghost run = slots@.subrange(base as int, base + len);
    assert(slots.len() == slots@.len());
    slots[base] = c;
    proof {
        let now = slots@.subrange(base as int, base + len);
        assert(now =~= run.update(0, c));
        assert forall|x: int| 0 < x < len && (x - 1) / 2 != 0 implies slots@[base + (x
            - 1) / 2].dot.rank() <= #[trigger] slots@[base + x].dot.rank() by {
            assert(run[(x - 1) / 2].dot.rank() <= run[x].dot.rank());
            assert(run[x] == slots@[base + x]);
            assert(run[(x - 1) / 2] == slots@[base + (x - 1) / 2]);
        }
        assert forall|x: int| 0 <= x < now.len() implies !(#[trigger] now[x]).dot.is_nan() by {
            assert(!run[x].dot.is_nan());
        }
    }
    sift_down(slots, base, len);
}

/// Whether slot `a` is slot `s` or stands above it.
pub open spec fn is_above(a: int, s: int) -> bool
    decreases s,
{
    a == s || (s > 0 && is_above(a, (s - 1) / 2))
}

proof fn lemma_above(a: int, s: int)
    requires
        0 <= s,
        is_above(a, s),
    ensures
        0 <= a <= s,
    decreases s,
{
    if a != s {
        lemma_above(a, (s - 1) / 2);
    }
}

/// What stands above a slot stands above those below it too.
proof fn lemma_above_all(a: int, b: int, s: int)
    requires
        0 <= s,
        is_above(b, s),
        is_above(a, b),
    ensures
        is_above(a, s),
    decreases s,
{
    if b != s {
        lemma_above_all(a, b, (s - 1) / 2);
    }
}

/// Two slots above one stand above one another.
proof fn lemma_one_path(a: int, b: int, s: int)
    requires
        0 <= s,
        is_above(a, s),
        is_above(b, s),
        a <= b,
    ensures
        is_above(a, b),
    decreases s,
{
    if b != s {
        if a == s {
            lemma_above(b, s);
        } else {
            lemma_one_path(a, b, (s - 1) / 2);
        }
    }
}

/// Whether `heap` with `c` added is `next`, in which `c` went to slot `at`: what stands
/// above is no larger and stays, what is larger on the way from the end moved down by
/// one, and the rest stays.
pub open spec fn rises_to(
    heap: Seq<Candidate>,
    c: Candidate,
    next: Seq<Candidate>,
    at: int,
) -> bool {
    let last = heap.len() as int;
    &&& next.len() == last + 1
    &&& is_above(at, last)
    &&& next[at] == c
    &&& forall|s: int|
        0 <= s < last && !is_above(s, last) ==> #[trigger] next[s] == heap[s]
    &&& forall|s: int|
        0 <= s < at && is_above(s, last) ==> #[trigger] next[s] == heap[s] && !heap[s].dot.greater(
            c.dot,
        )
    &&& forall|s: int|
        at < s <= last && is_above(s, last) ==> #[trigger] next[s] == heap[(s - 1) / 2] && heap[(s
            - 1) / 2].dot.greater(c.dot)
}

/// [`lemma_added_rises_past_the_larger`], from a slot that `c` has risen to.
proof fn lemma_rises_on(heap: Seq<Candidate>, c: Candidate, run: Seq<Candidate>, child: int) -> (
    at: int)
    requires
        is_heap(heap),
        !c.dot.is_nan(),
        run.len() == heap.len() + 1,
        is_above(child, heap.len() as int),
        run[child] == c,
        forall|s: int|
            0 <= s < heap.len() && (s < child || !is_above(s, heap.len() as int))
                ==> #[trigger] run[s] == heap[s],
        forall|s: int|
            child < s <= heap.len() && is_above(s, heap.len() as int) ==> #[trigger] run[s]
                == heap[(s - 1) / 2] && heap[(s - 1) / 2].dot.greater(c.dot),
    ensures
        rises_to(heap, c, lifted(run, child), at),
    decreases child,
{
    let last = heap.len() as int;
    lemma_above(child, last);
    let parent = (child - 1) / 2;
    if child <= 0 || run[parent].dot.rank() <= run[child].dot.rank() {
        assert forall|s: int| 0 <= s < child && is_above(s, last) implies #[trigger] run[s]
            == heap[s] && !heap[s].dot.greater(c.dot) by {
            lemma_one_path(s, child, last);
            assert(is_above(s, parent));
            lemma_no_larger_above(heap, s, parent);
        }
        assert(rises_to(heap, c, run, child));
        child
    } else {
        let next = exchanged(run, child, parent);
        assert(is_above(parent, parent));
        assert(is_above(parent, child));
        lemma_above_all(parent, child, last);
        assert(!heap[parent].dot.is_nan());
        assert forall|s: int|
            parent < s <= heap.len() && is_above(s, last) implies #[trigger] next[s] == heap[(s
            - 1) / 2] && heap[(s - 1) / 2].dot.greater(c.dot) by {
            if s < child {
                lemma_one_path(s, child, last);
                lemma_above(s, parent);
            }
        }
        let at = lemma_rises_on(heap, c, next, parent);
        assert(lifted(run, child) == lifted(next, parent));
        at
    }
}

/// What stands above a slot of a heap is no larger.
proof fn lemma_no_larger_above(heap: Seq<Candidate>, a: int, s: int)
    requires
        is_heap(heap),
        0 <= s < heap.len(),
        is_above(a, s),
    ensures
        0 <= a <= s,
        heap[a].dot.rank() <= heap[s].dot.rank(),
    decreases s,
{
    if a != s {
        lemma_no_larger_above(heap, a, (s - 1) / 2);
        assert(heap[(s - 1) / 2].dot.rank() <= heap[s].dot.rank());
    }
}

/// What is added to a heap rises from the end past what is larger, and no further.
pub proof fn lemma_added_rises_past_the_larger(heap: Seq<Candidate>, c: Candidate)
    requires
        is_heap(heap),
        !c.dot.is_nan(),
    ensures
        exists|at: int| #[trigger] rises_to(heap, c, pushed(heap, c), at),
{
    let at = lemma_rises_on(heap, c, heap.push(c), heap.len() as int);
    assert(rises_to(heap, c, pushed(heap, c), at));
}

/// Whether slot `s`, on the way down to slot `at`, holds the smaller of its two children
/// in `heap`, the left one of equals, which is smaller than `c` and leads to `at`.
pub open spec fn holds_lesser_child(
    heap: Seq<Candidate>,
    c: Candidate,
    next: Seq<Candidate>,
    at: int,
    s: int,
) -> bool {
    let (left, right) = (2 * s + 1, 2 * s + 2);
    &&& c.dot.greater(next[s].dot)
    &&& if right < heap.len() && heap[left].dot.greater(heap[right].dot) {
        is_above(right, at) && next[s] == heap[right]
    } else {
        is_above(left, at) && next[s] == heap[left]
    }
}

/// Whether `heap` with `c` for its root is `next`, in which `c` went to slot `at`: on the
/// way there the smaller of two children moved up by one, the left one of equals, and it
/// is smaller than `c`; what stands below is no smaller; and the rest stays.
pub open spec fn sinks_to(
    heap: Seq<Candidate>,
    c: Candidate,
    next: Seq<Candidate>,
    at: int,
) -> bool {
    &&& next.len() == heap.len()
    &&& 0 <= at < heap.len()
    &&& next[at] == c
    &&& forall|s: int|
        0 <= s < heap.len() && !is_above(s, at) ==> #[trigger] next[s] == heap[s]
    &&& forall|s: int|
        0 <= s < at && is_above(s, at) ==> #[trigger] holds_lesser_child(heap, c, next, at, s)
    &&& 2 * at + 1 < heap.len() ==> !c.dot.greater(heap[2 * at + 1].dot)
    &&& 2 * at + 2 < heap.len() ==> !c.dot.greater(heap[2 * at + 2].dot)
}

/// [`lemma_replacement_sinks_past_the_smaller`], from a slot that `c` has sunk to.
proof fn lemma_sinks_on(heap: Seq<Candidate>, c: Candidate, run: Seq<Candidate>, parent: int) -> (
    at: int)
    requires
        is_heap(heap),
        !c.dot.is_nan(),
        run.len() == heap.len(),
        0 <= parent < heap.len(),
        run[parent] == c,
        forall|s: int|
            0 <= s < heap.len() && !is_above(s, parent) ==> #[trigger] run[s] == heap[s],
        forall|s: int|
            0 <= s < parent && is_above(s, parent) ==> #[trigger] holds_lesser_child(
                heap,
                c,
                run,
                parent,
                s,
            ),
    ensures
        sinks_to(heap, c, sunk(run, parent), at),
    decreases heap.len() - parent,
{
    let (left, right) = (2 * parent + 1, 2 * parent + 2);
    let child = smaller_child(run, parent);
    if is_above(left, parent) {
        lemma_above(left, parent);
    }
    if is_above(right, parent) {
        lemma_above(right, parent);
    }
    if left < heap.len() {
        assert(!heap[left].dot.is_nan());
        assert(run[left] == heap[left]);
    }
    if right < heap.len() {
        assert(!heap[right].dot.is_nan());
        assert(run[right] == heap[right]);
    }
    if left >= run.len() || run[parent].dot.rank() <= run[child].dot.rank() {
        assert(sinks_to(heap, c, run, parent));
        parent
    } else {
        let next = exchanged(run, parent, child);
        assert((child - 1) / 2 == parent);
        assert forall|s: int| 0 <= s < heap.len() && !is_above(s, child) implies #[trigger] next[s]
            == heap[s] by {
            assert(!is_above(s, parent));
        }
        assert forall|s: int|
            0 <= s < child && is_above(s, child) implies #[trigger] holds_lesser_child(
            heap,
            c,
            next,
            child,
            s,
        ) by {
            assert(is_above(s, parent));
            lemma_above(s, parent);
            assert(is_above(parent, parent));
            assert(is_above(parent, child));
            if s < parent {
                assert(holds_lesser_child(heap, c, run, parent, s));
                assert(next[s] == run[s]);
                if is_above(2 * s + 1, parent) {
                    lemma_above_all(2 * s + 1, parent, child);
                }
                if is_above(2 * s + 2, parent) {
                    lemma_above_all(2 * s + 2, parent, child);
                }
            }
        }
        let at = lemma_sinks_on(heap, c, next, child);
        assert(sunk(run, parent) == sunk(next, child));
        at
    }
}

/// What takes the root's place in a heap sinks past the smaller of two children, the left
/// one of equals, where that is smaller, and no further.
pub proof fn lemma_replacement_sinks_past_the_smaller(heap: Seq<Candidate>, c: Candidate)
    requires
        is_heap(heap),
        heap.len() > 0,
        !c.dot.is_nan(),
    ensures
        exists|at: int| #[trigger] sinks_to(heap, c, replaced(heap, c), at),
{
    let at = lemma_sinks_on(heap, c, heap.update(0, c), 0);
    assert(sinks_to(heap, c, replaced(heap, c), at));
}

} // verus!
