use vstd::prelude::*;
use vstd::laws_cmp::obeys_cmp;
use core::cmp::Ordering;
use crate::bin_tree::order::{lt, equiv, lemma_cmp_laws};

verus! {

/// Ascending, equal neighbours allowed.
pub open spec fn ascending<T: Ord>(s: Seq<T>) -> bool {
    forall|i: int, j: int| 0 <= i < j < s.len() ==> !lt(#[trigger] s[j], #[trigger] s[i])
}

/// Some element in `s[lo..hi]` compares equal to `key`.
pub open spec fn found_in<T: Ord>(s: Seq<T>, key: T, lo: int, hi: int) -> bool {
    exists|i: int| lo <= i < hi && equiv(key, #[trigger] s[i])
}

/// An ascending range, read through the indices of the whole sequence.
proof fn lemma_ascending_range<T: Ord>(s: Seq<T>, lo: int, hi: int)
    requires
        0 <= lo <= hi <= s.len(),
        ascending(s.subrange(lo, hi)),
    ensures
        forall|i: int, j: int| lo <= i < j < hi ==> !lt(#[trigger] s[j], #[trigger] s[i]),
{
    assert forall|i: int, j: int| lo <= i < j < hi implies !lt(#[trigger] s[j], #[trigger] s[i]) by {
        assert(s.subrange(lo, hi)[i - lo] == s[i]);
        assert(s.subrange(lo, hi)[j - lo] == s[j]);
    }
}

/// A part of an ascending range is ascending.
proof fn lemma_ascending_sub<T: Ord>(s: Seq<T>, lo: int, hi: int, a: int, b: int)
    requires
        0 <= lo <= a <= b <= hi <= s.len(),
        ascending(s.subrange(lo, hi)),
    ensures
        ascending(s.subrange(a, b)),
{
    lemma_ascending_range(s, lo, hi);
    let t = s.subrange(a, b);
    assert forall|i: int, j: int| 0 <= i < j < t.len() implies !lt(#[trigger] t[j], #[trigger] t[i]) by {
        assert(t[i] == s[a + i]);
        assert(t[j] == s[a + j]);
    }
}

/// Looks for an element that compares equal to `key` in `data[lo..hi]`, which must ascend,
/// halving the range at each step.
pub fn binary_search<'a, T: Ord>(data: &'a [T], key: &T, lo: usize, hi: usize) -> (r: Option<&'a T>)
    requires
        obeys_cmp::<T>(),
        lo <= hi <= data@.len(),
        ascending(data@.subrange(lo as int, hi as int)),
    ensures
        r is Some <==> found_in(data@, *key, lo as int, hi as int),
        r is Some ==> equiv(*key, *r.unwrap()) && exists|i: int| lo <= i < hi && data@[i] == *r.unwrap(),
    decreases hi - lo,
{
    proof {
        lemma_cmp_laws::<T>();
        lemma_ascending_range(data@, lo as int, hi as int);
    }
    if lo >= hi {
        return None;
    }
    let mid = lo + (hi - lo) / 2;
    proof {
        lemma_ascending_sub(data@, lo as int, hi as int, lo as int, mid as int);
        lemma_ascending_sub(data@, lo as int, hi as int, mid + 1, hi as int);
    }
    match key.cmp(&data[mid]) {
        Ordering::Equal => {
            assert(data@[mid as int] == data[mid as int]);
            Some(&data[mid])
        },
        Ordering::Less => {
            assert forall|i: int| mid <= i < hi implies !equiv(*key, #[trigger] data@[i]) by {
                let m = data@[mid as int];
                assert(lt(*key, m));
                if i > mid {
                    assert(!lt(data@[i], m));
                    if !lt(m, data@[i]) {
                        assert(equiv(m, data@[i]));
                    }
                }
                assert(lt(*key, data@[i]));
            }
            binary_search(data, key, lo, mid)
        },
        Ordering::Greater => {
            assert forall|i: int| lo <= i <= mid implies !equiv(*key, #[trigger] data@[i]) by {
                let m = data@[mid as int];
                assert(lt(m, *key));
                if i < mid {
                    assert(!lt(m, data@[i]));
                    if !lt(data@[i], m) {
                        assert(equiv(data@[i], m));
                    }
                }
                assert(lt(data@[i], *key));
                if equiv(*key, data@[i]) {
                    assert(equiv(data@[i], *key));
                }
            }
            binary_search(data, key, mid + 1, hi)
        },
    }
}

} // verus!
