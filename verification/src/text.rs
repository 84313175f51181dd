//! Numbers and lists of numbers as text.
use vstd::prelude::*;
use vstd::string::{StrSliceExecFns, StringExecFns};

verus! {

/// The decimal digit `d`.
pub open spec fn digit(d: int) -> char {
    if d == 0 {
        '0'
    } else if d == 1 {
        '1'
    } else if d == 2 {
        '2'
    } else if d == 3 {
        '3'
    } else if d == 4 {
        '4'
    } else if d == 5 {
        '5'
    } else if d == 6 {
        '6'
    } else if d == 7 {
        '7'
    } else if d == 8 {
        '8'
    } else {
        '9'
    }
}

/// `n` in decimal, without leading zeros.
pub open spec fn decimal(n: nat) -> Seq<char>
    decreases n,
{
    if n < 10 {
        seq![digit(n as int)]
    } else {
        decimal(n / 10).push(digit((n % 10) as int))
    }
}

fn digit_text(d: u64) -> (s: &'static str)
    requires
        d < 10,
    ensures
        s@ == seq![digit(d as int)],
{
    proof {
        reveal_strlit("0");
        reveal_strlit("1");
        reveal_strlit("2");
        reveal_strlit("3");
        reveal_strlit("4");
        reveal_strlit("5");
        reveal_strlit("6");
        reveal_strlit("7");
        reveal_strlit("8");
        reveal_strlit("9");
    }
    let s = if d == 0 {
        "0"
    } else if d == 1 {
        "1"
    } else if d == 2 {
        "2"
    } else if d == 3 {
        "3"
    } else if d == 4 {
        "4"
    } else if d == 5 {
        "5"
    } else if d == 6 {
        "6"
    } else if d == 7 {
        "7"
    } else if d == 8 {
        "8"
    } else {
        "9"
    };
    assert(s@ =~= seq![digit(d as int)]);
    s
}

/// Adds `n` in decimal to `text`.
pub fn append_decimal(text: &mut String, n: u64)
    ensures
        final(text)@ == old(text)@ + decimal(n as nat),
    decreases n,
{
    let ghost before = text@;
    if n >= 10 {
        append_decimal(text, n / 10);
    }
    text.append(digit_text(n % 10));
    assert(text@ =~= before + decimal(n as nat));
}

/// The items of a list in decimal, with a comma and a space between them.
pub open spec fn joined(items: Seq<u32>) -> Seq<char>
    decreases items.len(),
{
    if items.len() == 0 {
        seq![]
    } else if items.len() == 1 {
        decimal(items[0] as nat)
    } else {
        joined(items.drop_last()) + ", "@ + decimal(items.last() as nat)
    }
}

/// A list in square brackets.
pub open spec fn bracketed(items: Seq<u32>) -> Seq<char> {
    "["@ + joined(items) + "]"@
}

/// Adds a list in square brackets to `text`.
pub fn append_list(text: &mut String, items: &Vec<u32>)
    ensures
        final(text)@ == old(text)@ + bracketed(items@),
{
    let ghost before = text@;
    text.append("[");
    let mut i: usize = 0;
    assert(text@ =~= before + "["@ + joined(items@.take(0)));
    while i < items.len()
        invariant
            i <= items@.len(),
            text@ == before + "["@ + joined(items@.take(i as int)),
        decreases items@.len() - i,
    {
        let ghost t = items@.take(i + 1);
        assert(t.drop_last() =~= items@.take(i as int));
        assert(items@.take(0) =~= Seq::<u32>::empty());
        if i > 0 {
            text.append(", ");
        }
        append_decimal(text, items[i] as u64);
        assert(text@ =~= before + "["@ + joined(t));
        i += 1;
    }
    text.append("]");
    assert(items@.take(i as int) =~= items@);
    assert(text@ =~= before + bracketed(items@));
}

/// Whether two texts are the same.
pub fn same_text(a: &str, b: &str) -> (r: bool)
    ensures
        r == (a@ == b@),
{
    let n: usize = a.unicode_len();
    if n != b.unicode_len() {
        return false;
    }
    let mut i: usize = 0;
    while i < n
        invariant
            i <= n,
            n == a@.len(),
            n == b@.len(),
            forall|p: int| 0 <= p < i ==> a@[p] == b@[p],
        decreases n - i,
    {
        if a.get_char(i) != b.get_char(i) {
            return false;
        }
        i += 1;
    }
    assert(a@ =~= b@);
    true
}

/// The text of a list: an item by itself is written in decimal, and two lists one after
/// the other have a comma and a space between them.
pub proof fn lemma_list_text(first: Seq<u32>, rest: Seq<u32>, item: u32)
    requires
        first.len() > 0,
        rest.len() > 0,
    ensures
        joined(seq![]) == Seq::<char>::empty(),
        joined(seq![item]) == decimal(item as nat),
        joined(first + rest) == joined(first) + seq![',', ' '] + joined(rest),
        bracketed(first) == seq!['['] + joined(first) + seq![']'],
    decreases rest.len(),
{
    reveal_strlit(", ");
    reveal_strlit("[");
    reveal_strlit("]");
    let between = seq![',', ' '];
    assert(", "@ =~= between);
    assert("["@ =~= seq!['[']);
    assert("]"@ =~= seq![']']);
    assert((first + rest).drop_last() =~= first + rest.drop_last());
    if rest.len() > 1 {
        lemma_list_text(first, rest.drop_last(), item);
        assert(joined(first + rest) =~= joined(first) + between + joined(rest));
    } else {
        assert(rest.drop_last() =~= Seq::<u32>::empty());
        assert(first + rest.drop_last() =~= first);
    }
}

} // verus!
