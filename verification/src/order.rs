//! Sorting by pairs of 32-bit keys, packed into one 64-bit integer each.
use vstd::prelude::*;

verus! {

/// The weight of the leading half of a packed pair.
pub const HALF: u64 = 0x1_0000_0000;

/// Two keys as one integer that orders by the first, then by the second.
pub fn pack(first: u32, second: u32) -> (key: u64)
    ensures
        key == first * HALF + second,
{
    first as u64 * HALF + second as u64
}

/// The keys that [`pack`] put into `key`.
pub fn unpack(key: u64) -> (r: (u32, u32))
    ensures
        key == r.0 * HALF + r.1,
{
    ((key / HALF) as u32, (key % HALF) as u32)
}

pub open spec fn ascending(keys: Seq<u64>) -> bool {
    forall|i: int, j: int| 0 <= i <= j < keys.len() ==> keys[i] <= keys[j]
}

fn merge(a: &Vec<u64>, b: &Vec<u64>) -> (out: Vec<u64>)
    requires
        ascending(a@),
        ascending(b@),
    ensures
        ascending(out@),
        out@.to_multiset() == a@.to_multiset().add(b@.to_multiset()),
{
    broadcast use vstd::multiset::group_multiset_axioms;

    let mut out: Vec<u64> = Vec::new();
    let mut i: usize = 0;
    let mut j: usize = 0;
    assert(a@.take(0) =~= Seq::<u64>::empty());
    assert(b@.take(0) =~= Seq::<u64>::empty());
    assert(out@ =~= Seq::<u64>::empty());
    assert(Seq::<u64>::empty().to_multiset() =~= vstd::multiset::Multiset::<u64>::empty()) by {
        broadcast use vstd::seq_lib::group_to_multiset_ensures;

    }
    while i < a.len() || j < b.len()
        invariant
            i <= a@.len(),
            j <= b@.len(),
            ascending(a@),
            ascending(b@),
            ascending(out@),
            forall|x: int, y: int| 0 <= x < out@.len() && i <= y < a@.len() ==> out@[x] <= a@[y],
            forall|x: int, y: int| 0 <= x < out@.len() && j <= y < b@.len() ==> out@[x] <= b@[y],
            out@.to_multiset() == a@.take(i as int).to_multiset().add(
                b@.take(j as int).to_multiset(),
            ),
        decreases a@.len() - i + b@.len() - j,
    {
        broadcast use vstd::multiset::group_multiset_axioms;

        let ghost before = out@;
        if j == b.len() || (i < a.len() && a[i] <= b[j]) {
            let x: u64 = a[i];
            out.push(x);
            proof {
                before.to_multiset_ensures();
                a@.take(i as int).to_multiset_ensures();
                assert(a@.take(i + 1) =~= a@.take(i as int).push(x));
                assert(out@.to_multiset() =~= a@.take(i + 1).to_multiset().add(
                    b@.take(j as int).to_multiset(),
                ));
            }
            i += 1;
        } else {
            let x: u64 = b[j];
            out.push(x);
            proof {
                before.to_multiset_ensures();
                b@.take(j as int).to_multiset_ensures();
                assert(b@.take(j + 1) =~= b@.take(j as int).push(x));
                assert(out@.to_multiset() =~= a@.take(i as int).to_multiset().add(
                    b@.take(j + 1).to_multiset(),
                ));
            }
            j += 1;
        }
    }
    assert(a@.take(i as int) =~= a@);
    assert(b@.take(j as int) =~= b@);
    out
}

/// The keys in ascending order.
pub fn sorted(keys: Vec<u64>) -> (out: Vec<u64>)
    ensures
        ascending(out@),
        out@.to_multiset() == keys@.to_multiset(),
        out@.len() == keys@.len(),
    decreases keys@.len(),
{
    if keys.len() < 2 {
        return keys;
    }
    let mut left = keys;
    let right = left.split_off(left.len() / 2);
    let ghost (l, r) = (left@, right@);
    proof {
        vstd::seq_lib::lemma_multiset_commutative(l, r);
        assert(l + r =~= keys@);
    }
    let left = sorted(left);
    let right = sorted(right);
    let out = merge(&left, &right);
    proof {
        out@.to_multiset_ensures();
        keys@.to_multiset_ensures();
    }
    out
}

/// A one-to-one map keeps how often an item occurs.
pub proof fn lemma_mapped_count<A, B>(items: Seq<A>, f: spec_fn(A) -> B, a: A)
    requires
        forall|x: A, y: A| #[trigger] f(x) == #[trigger] f(y) ==> x == y,
    ensures
        items.to_multiset().count(a) == items.map_values(f).to_multiset().count(f(a)),
    decreases items.len(),
{
    items.to_multiset_ensures();
    items.map_values(f).to_multiset_ensures();
    if items.len() > 0 {
        let rest = items.drop_last();
        lemma_mapped_count(rest, f, a);
        rest.to_multiset_ensures();
        rest.map_values(f).to_multiset_ensures();
        assert(items =~= rest.push(items.last()));
        assert(items.map_values(f) =~= rest.map_values(f).push(f(items.last())));
        assert(f(items.last()) == f(a) ==> items.last() == a);
    }
}

} // verus!
