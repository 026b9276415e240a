use vstd::prelude::*;
use vstd::laws_cmp::{obeys_cmp, obeys_cmp_ord, obeys_cmp_partial_ord, obeys_partial_cmp_spec_properties};
use vstd::laws_eq::obeys_eq_spec_properties;
use core::cmp::Ordering;
use vstd::std_specs::cmp::{OrdSpec, PartialOrdSpec};

verus! {

/// `a` orders strictly before `b`.
pub open spec fn lt<T: Ord>(a: T, b: T) -> bool {
    a.cmp_spec(&b) == Ordering::Less
}

/// `a` and `b` compare equal.
pub open spec fn equiv<T: Ord>(a: T, b: T) -> bool {
    a.cmp_spec(&b) == Ordering::Equal
}

/// Strictly ascending.
pub open spec fn sorted<T: Ord>(s: Seq<T>) -> bool {
    forall|i: int, j: int| 0 <= i < j < s.len() ==> lt(#[trigger] s[i], #[trigger] s[j])
}

/// Every element of `s` orders before `x`.
pub open spec fn all_lt<T: Ord>(s: Seq<T>, x: T) -> bool {
    forall|i: int| 0 <= i < s.len() ==> lt(#[trigger] s[i], x)
}

/// Every element of `s` orders after `x`.
pub open spec fn all_gt<T: Ord>(s: Seq<T>, x: T) -> bool {
    forall|i: int| 0 <= i < s.len() ==> lt(x, #[trigger] s[i])
}

/// Some element of `s` compares equal to `k`.
pub open spec fn has_key<T: Ord>(s: Seq<T>, k: T) -> bool {
    exists|i: int| 0 <= i < s.len() && equiv(k, #[trigger] s[i])
}

/// The laws of a total order, as they follow from a lawful `Ord`.
pub proof fn lemma_cmp_laws<T: Ord>()
    requires
        obeys_cmp::<T>(),
    ensures
        T::obeys_cmp_spec(),
        forall|a: T, b: T| #[trigger] lt(a, b) <==> b.cmp_spec(&a) == Ordering::Greater,
        forall|a: T, b: T| #[trigger] equiv(a, b) ==> equiv(b, a),
        forall|a: T| #[trigger] equiv(a, a),
        forall|a: T, b: T, c: T| #[trigger] lt(a, b) && #[trigger] lt(b, c) ==> lt(a, c),
        forall|a: T, b: T, c: T| #[trigger] lt(a, b) && #[trigger] equiv(b, c) ==> lt(a, c),
        forall|a: T, b: T, c: T| #[trigger] equiv(a, b) && #[trigger] lt(b, c) ==> lt(a, c),
        forall|a: T, b: T, c: T| #[trigger] equiv(a, b) && #[trigger] equiv(b, c) ==> equiv(a, c),
{
    reveal(obeys_cmp_partial_ord);
    reveal(obeys_cmp_ord);
    reveal(obeys_partial_cmp_spec_properties);
    reveal(obeys_eq_spec_properties);
    assert forall|a: T, b: T| #[trigger] lt(a, b) <==> b.cmp_spec(&a) == Ordering::Greater by {
        assert(a.partial_cmp_spec(&b) == Some(a.cmp_spec(&b)));
        assert(b.partial_cmp_spec(&a) == Some(b.cmp_spec(&a)));
    }
    assert forall|a: T, b: T| #[trigger] equiv(a, b) implies equiv(b, a) by {
        assert(a.partial_cmp_spec(&b) == Some(a.cmp_spec(&b)));
        assert(b.partial_cmp_spec(&a) == Some(b.cmp_spec(&a)));
    }
    assert forall|a: T| #[trigger] equiv(a, a) by {
        assert(a.partial_cmp_spec(&a) == Some(a.cmp_spec(&a)));
    }
    assert forall|a: T, b: T, c: T| #[trigger] lt(a, b) && #[trigger] lt(b, c) implies lt(a, c) by {
        assert(a.partial_cmp_spec(&b) == Some(a.cmp_spec(&b)));
        assert(b.partial_cmp_spec(&c) == Some(b.cmp_spec(&c)));
        assert(a.partial_cmp_spec(&c) == Some(a.cmp_spec(&c)));
    }
    assert forall|a: T, b: T, c: T| #[trigger] equiv(a, b) && #[trigger] equiv(b, c) implies equiv(a, c) by {
        assert(a.partial_cmp_spec(&b) == Some(a.cmp_spec(&b)));
        assert(b.partial_cmp_spec(&c) == Some(b.cmp_spec(&c)));
        assert(a.partial_cmp_spec(&c) == Some(a.cmp_spec(&c)));
    }
    assert forall|a: T, b: T, c: T| #[trigger] lt(a, b) && #[trigger] equiv(b, c) implies lt(a, c) by {
        assert(a.partial_cmp_spec(&b) == Some(a.cmp_spec(&b)));
        assert(b.partial_cmp_spec(&c) == Some(b.cmp_spec(&c)));
        assert(c.partial_cmp_spec(&b) == Some(c.cmp_spec(&b)));
        assert(a.partial_cmp_spec(&c) == Some(a.cmp_spec(&c)));
        assert(c.partial_cmp_spec(&a) == Some(c.cmp_spec(&a)));
        assert(b.partial_cmp_spec(&a) == Some(b.cmp_spec(&a)));
    }
    assert forall|a: T, b: T, c: T| #[trigger] equiv(a, b) && #[trigger] lt(b, c) implies lt(a, c) by {
        assert(a.partial_cmp_spec(&b) == Some(a.cmp_spec(&b)));
        assert(b.partial_cmp_spec(&c) == Some(b.cmp_spec(&c)));
        assert(b.partial_cmp_spec(&a) == Some(b.cmp_spec(&a)));
        assert(a.partial_cmp_spec(&c) == Some(a.cmp_spec(&c)));
        assert(c.partial_cmp_spec(&a) == Some(c.cmp_spec(&a)));
        assert(c.partial_cmp_spec(&b) == Some(c.cmp_spec(&b)));
    }
}

/// A sequence laid out as `a`, then `d`, then `b` is ascending exactly when both parts are and
/// `d` separates them.
pub proof fn lemma_sorted_node<T: Ord>(a: Seq<T>, d: T, b: Seq<T>)
    requires
        obeys_cmp::<T>(),
    ensures
        sorted(a.push(d) + b) <==> (sorted(a) && sorted(b) && all_lt(a, d) && all_gt(b, d)),
{
    lemma_cmp_laws::<T>();
    let s = a.push(d) + b;
    let n = a.len() as int;
    assert forall|i: int| 0 <= i < n implies s[i] == a[i] by {}
    assert(s[n] == d);
    assert forall|j: int| 0 <= j < b.len() implies s[n + 1 + j] == b[j] by {}
    if sorted(s) {
        assert forall|i: int, j: int| 0 <= i < j < a.len() implies lt(a[i], a[j]) by {
            assert(lt(s[i], s[j]));
        }
        assert forall|i: int, j: int| 0 <= i < j < b.len() implies lt(b[i], b[j]) by {
            assert(lt(s[n + 1 + i], s[n + 1 + j]));
        }
        assert forall|i: int| 0 <= i < a.len() implies lt(#[trigger] a[i], d) by {
            assert(lt(s[i], s[n]));
        }
        assert forall|j: int| 0 <= j < b.len() implies lt(d, #[trigger] b[j]) by {
            assert(lt(s[n], s[n + 1 + j]));
        }
    }
    if sorted(a) && sorted(b) && all_lt(a, d) && all_gt(b, d) {
        assert forall|i: int, j: int| 0 <= i < j < s.len() implies lt(#[trigger] s[i], #[trigger] s[j]) by {
            if j < n {
            } else if j == n {
                assert(lt(a[i], d));
            } else if i < n {
                assert(lt(a[i], d));
                assert(lt(d, b[j - n - 1]));
            } else if i == n {
                assert(lt(d, b[j - n - 1]));
            } else {
                assert(lt(b[i - n - 1], b[j - n - 1]));
            }
        }
    }
}

/// A key is found in `a`, then `d`, then `b` exactly when it is found in one of the parts.
pub proof fn lemma_has_key_node<T: Ord>(a: Seq<T>, d: T, b: Seq<T>, k: T)
    ensures
        has_key(a.push(d) + b, k) <==> (has_key(a, k) || equiv(k, d) || has_key(b, k)),
{
    let s = a.push(d) + b;
    let n = a.len() as int;
    if has_key(s, k) {
        let i = choose|i: int| 0 <= i < s.len() && equiv(k, #[trigger] s[i]);
        if i < n {
            assert(equiv(k, a[i]));
        } else if i > n {
            assert(equiv(k, b[i - n - 1]));
        }
    }
    if has_key(a, k) {
        let i = choose|i: int| 0 <= i < a.len() && equiv(k, #[trigger] a[i]);
        assert(s[i] == a[i]);
    }
    if equiv(k, d) {
        assert(s[n] == d);
    }
    if has_key(b, k) {
        let j = choose|j: int| 0 <= j < b.len() && equiv(k, #[trigger] b[j]);
        assert(s[n + 1 + j] == b[j]);
    }
}

/// The elements of the parts are elements of the whole.
pub proof fn lemma_contains_node<T>(a: Seq<T>, d: T, b: Seq<T>)
    ensures
        forall|x: T| #[trigger] a.contains(x) ==> (a.push(d) + b).contains(x),
        forall|x: T| #[trigger] b.contains(x) ==> (a.push(d) + b).contains(x),
        (a.push(d) + b).contains(d),
{
    let s = a.push(d) + b;
    let n = a.len() as int;
    assert forall|x: T| #[trigger] a.contains(x) implies s.contains(x) by {
        let i = choose|i: int| 0 <= i < a.len() && a[i] == x;
        assert(s[i] == x);
    }
    assert forall|x: T| #[trigger] b.contains(x) implies s.contains(x) by {
        let j = choose|j: int| 0 <= j < b.len() && b[j] == x;
        assert(s[n + 1 + j] == x);
    }
    assert(s[n] == d);
}

/// In an ascending sequence no key is found below an element it orders before.
pub proof fn lemma_no_key_above<T: Ord>(b: Seq<T>, d: T, k: T)
    requires
        obeys_cmp::<T>(),
        all_gt(b, d),
        lt(k, d),
    ensures
        !has_key(b, k),
{
    lemma_cmp_laws::<T>();
    if has_key(b, k) {
        let j = choose|j: int| 0 <= j < b.len() && equiv(k, #[trigger] b[j]);
        assert(lt(d, b[j]));
        assert(lt(k, b[j]));
    }
}

/// In an ascending sequence no key is found above an element it orders after.
pub proof fn lemma_no_key_below<T: Ord>(a: Seq<T>, d: T, k: T)
    requires
        obeys_cmp::<T>(),
        all_lt(a, d),
        lt(d, k),
    ensures
        !has_key(a, k),
{
    lemma_cmp_laws::<T>();
    if has_key(a, k) {
        let i = choose|i: int| 0 <= i < a.len() && equiv(k, #[trigger] a[i]);
        assert(lt(a[i], d));
        assert(equiv(a[i], k));
        assert(lt(a[i], k));
    }
}

/// An element inserted into a bounded sequence keeps the bound if it meets it.
pub proof fn lemma_insert_bounds<T: Ord>(s: Seq<T>, i: int, v: T, x: T)
    requires
        0 <= i <= s.len(),
    ensures
        all_lt(s, x) && lt(v, x) ==> all_lt(s.insert(i, v), x),
        all_gt(s, x) && lt(x, v) ==> all_gt(s.insert(i, v), x),
{
    s.insert_ensures(i, v);
    let t = s.insert(i, v);
    assert forall|k: int| 0 <= k < t.len() implies t[k] == v || (exists|m: int| 0 <= m < s.len() && t[k] == #[trigger] s[m]) by {
        if k < i {
            assert(t[k] == s[k]);
        } else if k > i {
            assert(t[k] == s[k - 1]);
        }
    }
}

/// Taking an element out keeps a sequence ascending and keeps its bounds.
pub proof fn lemma_remove_bounds<T: Ord>(s: Seq<T>, i: int, x: T)
    requires
        0 <= i < s.len(),
    ensures
        sorted(s) ==> sorted(s.remove(i)),
        all_lt(s, x) ==> all_lt(s.remove(i), x),
        all_gt(s, x) ==> all_gt(s.remove(i), x),
{
    s.remove_ensures(i);
    let t = s.remove(i);
    assert forall|k: int| 0 <= k < t.len() implies t[k] == s[if k < i { k } else { k + 1 }] by {}
    if sorted(s) {
        assert forall|p: int, q: int| 0 <= p < q < t.len() implies lt(#[trigger] t[p], #[trigger] t[q]) by {
            assert(t[p] == s[if p < i { p } else { p + 1 }]);
            assert(t[q] == s[if q < i { q } else { q + 1 }]);
        }
    }
    if all_lt(s, x) {
        assert forall|k: int| 0 <= k < t.len() implies lt(#[trigger] t[k], x) by {
            assert(t[k] == s[if k < i { k } else { k + 1 }]);
        }
    }
    if all_gt(s, x) {
        assert forall|k: int| 0 <= k < t.len() implies lt(x, #[trigger] t[k]) by {
            assert(t[k] == s[if k < i { k } else { k + 1 }]);
        }
    }
}

} // verus!
