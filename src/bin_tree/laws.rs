use vstd::prelude::*;
use vstd::laws_cmp::obeys_cmp;
use super::order::{lt, equiv, sorted, has_key, lemma_cmp_laws};
use super::shape::{Tree, lemma_mk};

verus! {

/// In a strictly ascending sequence at most one element compares equal to a key.
pub proof fn lemma_key_unique<T: Ord>(s: Seq<T>, k: T, i: int, j: int)
    requires
        obeys_cmp::<T>(),
        sorted(s),
        0 <= i < s.len(),
        0 <= j < s.len(),
        equiv(k, s[i]),
        equiv(k, s[j]),
    ensures
        i == j,
{
    lemma_cmp_laws::<T>();
    assert(equiv(s[i], k));
    assert(equiv(s[j], k));
    if i < j {
        assert(lt(s[i], s[j]));
        assert(equiv(s[i], s[j]));
    } else if j < i {
        assert(lt(s[j], s[i]));
        assert(equiv(s[j], s[i]));
    }
}

/// Inserting then searching: once `insert(v)` has run on a tree holding `before` and left
/// `after` (the new value at its place, or nothing changed when a payload equal to it was
/// there), a search for `v` finds a payload; when `v` was new, the payload found is `v` itself.
pub proof fn lemma_insert_then_search<T: Ord>(before: Seq<T>, v: T, after: Seq<T>)
    requires
        obeys_cmp::<T>(),
        sorted(before),
        sorted(after),
        has_key(before, v) ==> after == before,
        !has_key(before, v) ==> exists|i: int| 0 <= i <= before.len() && after == before.insert(i, v),
    ensures
        has_key(after, v),
        !has_key(before, v) ==> forall|r: T| after.contains(r) && equiv(v, r) ==> r == v,
{
    lemma_cmp_laws::<T>();
    if !has_key(before, v) {
        let i = choose|i: int| 0 <= i <= before.len() && after == before.insert(i, v);
        before.insert_ensures(i, v);
        assert(after[i] == v);
        assert(equiv(v, after[i]));
        assert forall|r: T| after.contains(r) && equiv(v, r) implies r == v by {
            let j = choose|j: int| 0 <= j < after.len() && after[j] == r;
            lemma_key_unique(after, v, i, j);
        }
    }
}

/// Removing then searching: once `remove(k)` has run on a tree holding `before` and left
/// `after` (the payload equal to `k` taken out, or nothing changed when there was none), a
/// search for `k` finds nothing.
pub proof fn lemma_remove_then_search<T: Ord>(before: Seq<T>, k: T, after: Seq<T>)
    requires
        obeys_cmp::<T>(),
        sorted(before),
        !has_key(before, k) ==> after == before,
        has_key(before, k) ==> exists|i: int|
            0 <= i < before.len() && equiv(k, before[i]) && after == before.remove(i),
    ensures
        !has_key(after, k),
{
    if has_key(before, k) {
        let i = choose|i: int| 0 <= i < before.len() && equiv(k, before[i]) && after == before.remove(i);
        before.remove_ensures(i);
        if has_key(after, k) {
            let j = choose|j: int| 0 <= j < after.len() && equiv(k, #[trigger] after[j]);
            if j < i {
                assert(after[j] == before[j]);
                lemma_key_unique(before, k, i, j);
            } else {
                assert(after[j] == before[j + 1]);
                lemma_key_unique(before, k, i, j + 1);
            }
        }
    }
}

/// Inserting a duplicate changes nothing. A first `insert(v)` takes a tree holding `before`
/// to the tree `first`; a second `insert(v)` on `first` returns `inserted` and leaves
/// `second`. The second call inserts nothing, and size and shape stay those of `first`.
pub proof fn lemma_duplicate_insert<T: Ord>(before: Seq<T>, v: T, first: Tree<T>, inserted: bool, second: Tree<T>)
    requires
        obeys_cmp::<T>(),
        sorted(before),
        sorted(first.inorder()),
        has_key(before, v) ==> first.inorder() == before,
        !has_key(before, v) ==> exists|i: int|
            0 <= i <= before.len() && first.inorder() == before.insert(i, v),
        inserted == !has_key(first.inorder(), v),
        !inserted ==> second == first,
    ensures
        !inserted,
        second == first,
        second.size() == first.size(),
{
    lemma_insert_then_search(before, v, first.inorder());
}


/// Balancing changes shape, never content or order: two trees that hold the same payloads
/// in order (a balanced and an unbalanced one, say) still do after both `insert(v)`, since
/// the value lands at its one sorted place.
pub proof fn lemma_insert_same_order<T: Ord>(before: Seq<T>, v: T, a: Seq<T>, b: Seq<T>)
    requires
        obeys_cmp::<T>(),
        sorted(before),
        sorted(a),
        sorted(b),
        has_key(before, v) ==> a == before && b == before,
        !has_key(before, v) ==> exists|i: int| 0 <= i <= before.len() && a == before.insert(i, v),
        !has_key(before, v) ==> exists|j: int| 0 <= j <= before.len() && b == before.insert(j, v),
    ensures
        a == b,
{
    lemma_cmp_laws::<T>();
    if !has_key(before, v) {
        let i = choose|i: int| 0 <= i <= before.len() && a == before.insert(i, v);
        let j = choose|j: int| 0 <= j <= before.len() && b == before.insert(j, v);
        before.insert_ensures(i, v);
        before.insert_ensures(j, v);
        if i < j {
            assert(a[i + 1] == before[i]);
            assert(lt(a[i], a[i + 1]));
            assert(b[i] == before[i]);
            assert(lt(b[i], b[j]));
        } else if j < i {
            assert(b[j + 1] == before[j]);
            assert(lt(b[j], b[j + 1]));
            assert(a[j] == before[j]);
            assert(lt(a[j], a[i]));
        }
    }
}

/// Balancing changes shape, never content or order: two trees that hold the same payloads
/// in order still do after both `remove(k)`.
pub proof fn lemma_remove_same_order<T: Ord>(before: Seq<T>, k: T, a: Seq<T>, b: Seq<T>)
    requires
        obeys_cmp::<T>(),
        sorted(before),
        !has_key(before, k) ==> a == before && b == before,
        has_key(before, k) ==> exists|i: int|
            0 <= i < before.len() && equiv(k, before[i]) && a == before.remove(i),
        has_key(before, k) ==> exists|j: int|
            0 <= j < before.len() && equiv(k, before[j]) && b == before.remove(j),
    ensures
        a == b,
{
    if has_key(before, k) {
        let i = choose|i: int| 0 <= i < before.len() && equiv(k, before[i]) && a == before.remove(i);
        let j = choose|j: int| 0 <= j < before.len() && equiv(k, before[j]) && b == before.remove(j);
        lemma_key_unique(before, k, i, j);
    }
}

/// The Fibonacci numbers.
pub open spec fn fib(n: nat) -> nat
    decreases n,
{
    if n == 0 {
        0
    } else if n == 1 {
        1
    } else {
        fib((n - 1) as nat) + fib((n - 2) as nat)
    }
}

proof fn lemma_fib_monotone(a: nat, b: nat)
    requires
        a <= b,
    ensures
        fib(a) <= fib(b),
    decreases b,
{
    if a < b {
        lemma_fib_monotone(a, (b - 1) as nat);
        if b >= 2 {
            assert(fib(b) == fib((b - 1) as nat) + fib((b - 2) as nat));
        }
    }
}

/// An AVL-balanced tree of height `h` holds at least `fib(h + 2) - 1` nodes, so its height
/// grows only logarithmically with its size (below `1.44 * log2(n + 2)`).
pub proof fn lemma_avl_min_size<T>(t: Tree<T>)
    requires
        t.is_balanced(),
    ensures
        t.size() + 1 >= fib(t.height() + 2),
    decreases t,
{
    match t {
        Tree::Nil => {
            assert(fib(2) == fib(1) + fib(0));
        },
        Tree::Node { left, data, right } => {
            lemma_mk(*left, data, *right);
            lemma_avl_min_size(*left);
            lemma_avl_min_size(*right);
            let h = t.height();
            assert(fib(h + 2) == fib(h + 1) + fib(h));
            if left.height() >= right.height() {
                lemma_fib_monotone(h, right.height() + 2);
            } else {
                lemma_fib_monotone(h, left.height() + 2);
            }
        },
    }
}

} // verus!
