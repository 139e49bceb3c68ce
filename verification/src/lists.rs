//! Facts and functions about lists.

use vstd::prelude::*;

verus! {

/// A prefix that is one longer contains one item more.
pub proof fn take_grows<T>(s: Seq<T>, i: int, x: T)
    requires
        0 <= i < s.len(),
    ensures
        s.take(i + 1).contains(x) <==> s.take(i).contains(x) || s[i] == x,
{
    let a = s.take(i);
    let b = s.take(i + 1);
    if b.contains(x) {
        let j = b.index_of(x);
        if j < i {
            assert(a[j] == x);
        }
    }
    if a.contains(x) {
        let j = a.index_of(x);
        assert(b[j] == x);
    }
    if s[i] == x {
        assert(b[i] == x);
    }
}

/// A list with one item more contains what it did, and that item.
pub proof fn push_contains<T>(s: Seq<T>, x: T, k: T)
    ensures
        s.push(x).contains(k) <==> s.contains(k) || k == x,
{
    let t = s.push(x);
    if s.contains(k) {
        assert(t[s.index_of(k)] == k);
    }
    if k == x {
        assert(t[s.len() as int] == k);
    }
    if t.contains(k) && k != x {
        let i = t.index_of(k);
        assert(s[i] == k);
    }
}

/// The items in the opposite order.
pub fn reversed<T>(v: Vec<T>) -> (r: Vec<T>)
    ensures
        r@ == v@.reverse(),
{
    let ghost all = v@;
    let mut v = v;
    let mut out: Vec<T> = Vec::new();
    while v.len() > 0
        invariant
            out@.len() + v@.len() == all.len(),
            v@ == all.take(v@.len() as int),
            forall|j: int| 0 <= j < out@.len() ==> out@[j] == all[all.len() - 1 - j],
        decreases v@.len(),
    {
        match v.pop() {
            Some(x) => out.push(x),
            None => {},
        }
    }
    assert(out@ =~= all.reverse());
    out
}

}
