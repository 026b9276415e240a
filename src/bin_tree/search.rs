use vstd::prelude::*;
use vstd::laws_cmp::obeys_cmp;
use core::cmp::Ordering;
use super::shape::{Side, Tree, mk, max_nat, lemma_height_le_size, lemma_mk, lemma_path_cons};
use super::node::{BinNode, Node, Link, link_view, link_wf, lemma_link_some, deref_seq, collect_inorder};
use super::tree::BinTree;
use super::laws::{fib, lemma_avl_min_size, lemma_insert_then_search, lemma_remove_then_search};
use super::order::{
    lt, equiv, sorted, has_key, lemma_cmp_laws, lemma_sorted_node, lemma_has_key_node,
    lemma_contains_node, lemma_no_key_above, lemma_no_key_below, lemma_insert_bounds, lemma_remove_bounds,
};

verus! {

/// A binary search tree: payloads ascend strictly from left to right, with no rebalancing.
pub struct BinarySearchTree<T> {
    pub(crate) bin_tree: BinTree<T>,
}

/// Short name of the unbalanced search tree.
pub type BST<T> = BinarySearchTree<T>;

/// A binary search tree kept AVL-balanced after every insertion and removal.
pub struct AVLTree<T> {
    pub(crate) bst: BinarySearchTree<T>,
}

/// Height difference between the two subtrees of a node.
pub open spec fn skew<T>(t: Tree<T>) -> int {
    t.left().height() - t.right().height()
}

/// The rebuilt shape shared by the four rotation cases.
pub open spec fn rebuilt<T>(t0: Tree<T>, x: T, t1: Tree<T>, y: T, t2: Tree<T>, z: T, t3: Tree<T>) -> Tree<T> {
    mk(mk(t0, x, t1), y, mk(t2, z, t3))
}

/// What the four rotation cases have in common: the rebuilt tree is balanced when its parts
/// are and its two halves differ in height by at most one.
proof fn lemma_rebuilt<T>(t0: Tree<T>, x: T, t1: Tree<T>, y: T, t2: Tree<T>, z: T, t3: Tree<T>)
    requires
        t0.is_balanced() && t1.is_balanced() && t2.is_balanced() && t3.is_balanced(),
        t0.height() <= t1.height() + 1 && t1.height() <= t0.height() + 1,
        t2.height() <= t3.height() + 1 && t3.height() <= t2.height() + 1,
        mk(t0, x, t1).height() <= mk(t2, z, t3).height() + 1,
        mk(t2, z, t3).height() <= mk(t0, x, t1).height() + 1,
    ensures
        rebuilt(t0, x, t1, y, t2, z, t3).is_balanced(),
        rebuilt(t0, x, t1, y, t2, z, t3).inorder() =~= t0.inorder().push(x) + t1.inorder() + seq![y]
            + t2.inorder().push(z) + t3.inorder(),
        rebuilt(t0, x, t1, y, t2, z, t3).size() == t0.size() + t1.size() + t2.size() + t3.size() + 3,
        rebuilt(t0, x, t1, y, t2, z, t3).height() == 1 + max_nat(
            mk(t0, x, t1).height(),
            mk(t2, z, t3).height(),
        ),
{
    let a = mk(t0, x, t1);
    let c = mk(t2, z, t3);
    lemma_mk(t0, x, t1);
    lemma_mk(t2, z, t3);
    lemma_mk(a, y, c);
}

/// Left-left case: the taller grandchild is the outer one on the left.
proof fn lemma_rotate_ll<T>(t0: Tree<T>, x: T, t1: Tree<T>, y: T, t2: Tree<T>, z: T, t3: Tree<T>)
    requires
        mk(mk(t0, x, t1), y, t2).is_balanced(),
        t3.is_balanced(),
        mk(mk(t0, x, t1), y, t2).height() == t3.height() + 2,
        mk(t0, x, t1).height() >= t2.height(),
    ensures
        rebuilt(t0, x, t1, y, t2, z, t3).is_balanced(),
        rebuilt(t0, x, t1, y, t2, z, t3).inorder() == mk(mk(mk(t0, x, t1), y, t2), z, t3).inorder(),
        rebuilt(t0, x, t1, y, t2, z, t3).size() == mk(mk(mk(t0, x, t1), y, t2), z, t3).size(),
        t3.height() + 2 <= rebuilt(t0, x, t1, y, t2, z, t3).height() <= t3.height() + 3,
{
    let c = mk(t0, x, t1);
    let p = mk(c, y, t2);
    lemma_mk(t0, x, t1);
    lemma_mk(c, y, t2);
    lemma_mk(p, z, t3);
    lemma_mk(t2, z, t3);
    lemma_rebuilt(t0, x, t1, y, t2, z, t3);
    assert(rebuilt(t0, x, t1, y, t2, z, t3).inorder() =~= mk(p, z, t3).inorder());
}

/// Left-right case: the taller grandchild is the inner one on the left.
proof fn lemma_rotate_lr<T>(t0: Tree<T>, x: T, t1: Tree<T>, y: T, t2: Tree<T>, z: T, t3: Tree<T>)
    requires
        mk(t0, x, mk(t1, y, t2)).is_balanced(),
        t3.is_balanced(),
        mk(t0, x, mk(t1, y, t2)).height() == t3.height() + 2,
        mk(t1, y, t2).height() > t0.height(),
    ensures
        rebuilt(t0, x, t1, y, t2, z, t3).is_balanced(),
        rebuilt(t0, x, t1, y, t2, z, t3).inorder() == mk(mk(t0, x, mk(t1, y, t2)), z, t3).inorder(),
        rebuilt(t0, x, t1, y, t2, z, t3).size() == mk(mk(t0, x, mk(t1, y, t2)), z, t3).size(),
        t3.height() + 2 <= rebuilt(t0, x, t1, y, t2, z, t3).height() <= t3.height() + 3,
{
    let c = mk(t1, y, t2);
    let p = mk(t0, x, c);
    lemma_mk(t1, y, t2);
    lemma_mk(t0, x, c);
    lemma_mk(p, z, t3);
    lemma_mk(t0, x, t1);
    lemma_mk(t2, z, t3);
    lemma_rebuilt(t0, x, t1, y, t2, z, t3);
    assert(rebuilt(t0, x, t1, y, t2, z, t3).inorder() =~= mk(p, z, t3).inorder());
}

/// Right-right case: the taller grandchild is the outer one on the right.
proof fn lemma_rotate_rr<T>(t0: Tree<T>, x: T, t1: Tree<T>, y: T, t2: Tree<T>, z: T, t3: Tree<T>)
    requires
        mk(t1, y, mk(t2, z, t3)).is_balanced(),
        t0.is_balanced(),
        mk(t1, y, mk(t2, z, t3)).height() == t0.height() + 2,
        mk(t2, z, t3).height() >= t1.height(),
    ensures
        rebuilt(t0, x, t1, y, t2, z, t3).is_balanced(),
        rebuilt(t0, x, t1, y, t2, z, t3).inorder() == mk(t0, x, mk(t1, y, mk(t2, z, t3))).inorder(),
        rebuilt(t0, x, t1, y, t2, z, t3).size() == mk(t0, x, mk(t1, y, mk(t2, z, t3))).size(),
        t0.height() + 2 <= rebuilt(t0, x, t1, y, t2, z, t3).height() <= t0.height() + 3,
{
    let c = mk(t2, z, t3);
    let p = mk(t1, y, c);
    lemma_mk(t2, z, t3);
    lemma_mk(t1, y, c);
    lemma_mk(t0, x, p);
    lemma_mk(t0, x, t1);
    lemma_rebuilt(t0, x, t1, y, t2, z, t3);
    assert(rebuilt(t0, x, t1, y, t2, z, t3).inorder() =~= mk(t0, x, p).inorder());
}

/// Right-left case: the taller grandchild is the inner one on the right.
proof fn lemma_rotate_rl<T>(t0: Tree<T>, x: T, t1: Tree<T>, y: T, t2: Tree<T>, z: T, t3: Tree<T>)
    requires
        mk(mk(t1, y, t2), z, t3).is_balanced(),
        t0.is_balanced(),
        mk(mk(t1, y, t2), z, t3).height() == t0.height() + 2,
        mk(t1, y, t2).height() > t3.height(),
    ensures
        rebuilt(t0, x, t1, y, t2, z, t3).is_balanced(),
        rebuilt(t0, x, t1, y, t2, z, t3).inorder() == mk(t0, x, mk(mk(t1, y, t2), z, t3)).inorder(),
        rebuilt(t0, x, t1, y, t2, z, t3).size() == mk(t0, x, mk(mk(t1, y, t2), z, t3)).size(),
        t0.height() + 2 <= rebuilt(t0, x, t1, y, t2, z, t3).height() <= t0.height() + 3,
{
    let c = mk(t1, y, t2);
    let p = mk(c, z, t3);
    lemma_mk(t1, y, t2);
    lemma_mk(c, z, t3);
    lemma_mk(t0, x, p);
    lemma_mk(t0, x, t1);
    lemma_mk(t2, z, t3);
    lemma_rebuilt(t0, x, t1, y, t2, z, t3);
    assert(rebuilt(t0, x, t1, y, t2, z, t3).inorder() =~= mk(t0, x, p).inorder());
}

/// What a node's subtree becomes when the node's own payload is unlinked: with at most one
/// child, that child's subtree; with two, the node keeps its links, takes the payload of its
/// in-order successor, and the successor's node is spliced out of the right subtree.
pub open spec fn spliced<T>(t: Tree<T>) -> Tree<T> {
    if t.left() is Nil {
        t.right()
    } else if t.right() is Nil {
        t.left()
    } else {
        mk(t.left(), t.right().inorder()[0], t.right().without_leftmost())
    }
}

/// Unlinking a payload below a child, as seen from the parent.
proof fn lemma_spliced_cons<T>(t: Tree<T>, s: Side, p: Seq<Side>)
    requires
        t is Node,
        s == Side::Left ==> t.left().has_node(p),
        s == Side::Right ==> t.right().has_node(p),
    ensures
        t.has_node(seq![s] + p),
        s == Side::Left ==> t.subtree(seq![s] + p) == t.left().subtree(p) && t.replace(
            seq![s] + p,
            spliced(t.subtree(seq![s] + p)),
        ) == mk(t.left().replace(p, spliced(t.left().subtree(p))), t->data, t.right()),
        s == Side::Right ==> t.subtree(seq![s] + p) == t.right().subtree(p) && t.replace(
            seq![s] + p,
            spliced(t.subtree(seq![s] + p)),
        ) == mk(t.left(), t->data, t.right().replace(p, spliced(t.right().subtree(p)))),
{
    let x = if s == Side::Left { spliced(t.left().subtree(p)) } else { spliced(t.right().subtree(p)) };
    lemma_path_cons(t, s, p, x);
}

/// A place for a new leaf: an empty slot of an existing node, or the root of an empty tree.
pub open spec fn leaf_slot<T>(t: Tree<T>, p: Seq<Side>) -> bool {
    &&& p.len() == 0 || t.has_node(p.drop_last())
    &&& t.subtree(p) is Nil
}

/// A leaf slot of a child is a leaf slot of its parent, one step further down.
proof fn lemma_leaf_slot_cons<T>(t: Tree<T>, s: Side, p: Seq<Side>, x: Tree<T>)
    requires
        t is Node,
        s == Side::Left ==> leaf_slot(t.left(), p),
        s == Side::Right ==> leaf_slot(t.right(), p),
    ensures
        leaf_slot(t, seq![s] + p),
        s == Side::Left ==> t.replace(seq![s] + p, x) == mk(t.left().replace(p, x), t->data, t.right()),
        s == Side::Right ==> t.replace(seq![s] + p, x) == mk(t.left(), t->data, t.right().replace(p, x)),
{
    lemma_path_cons(t, s, p, x);
    if p.len() > 0 {
        lemma_path_cons(t, s, p.drop_last(), x);
    }
}

/// Rebuilds three nodes and four subtrees as `b(a(t0, t1), c(t2, t3))`.
fn connect34<T>(
    a: Box<BinNode<T>>,
    b: Box<BinNode<T>>,
    c: Box<BinNode<T>>,
    t0: Link<T>,
    t1: Link<T>,
    t2: Link<T>,
    t3: Link<T>,
) -> (r: Box<BinNode<T>>)
    requires
        a.lc is None && a.rc is None,
        b.lc is None && b.rc is None,
        c.lc is None && c.rc is None,
        link_wf(t0) && link_wf(t1) && link_wf(t2) && link_wf(t3),
        link_view(t0).height() + 3 <= usize::MAX,
        link_view(t1).height() + 3 <= usize::MAX,
        link_view(t2).height() + 3 <= usize::MAX,
        link_view(t3).height() + 3 <= usize::MAX,
    ensures
        r.wf(),
        r@ == (Tree::Node {
            left: Box::new(Tree::Node {
                left: Box::new(link_view(t0)),
                data: a.data,
                right: Box::new(link_view(t1)),
            }),
            data: b.data,
            right: Box::new(Tree::Node {
                left: Box::new(link_view(t2)),
                data: c.data,
                right: Box::new(link_view(t3)),
            }),
        }),
{
    let mut a = a;
    let mut b = b;
    let mut c = c;
    a.lc = t0;
    a.rc = t1;
    a.update_height();
    c.lc = t2;
    c.rc = t3;
    c.update_height();
    proof {
        lemma_link_some(a);
        lemma_link_some(c);
    }
    b.lc = Some(a);
    b.rc = Some(c);
    b.update_height();
    b
}

impl<T: Ord> BinarySearchTree<T> {
    /// Finds the payload that compares equal to `key`, descending left on `Less` and right
    /// on `Greater`.
    fn search_node<'a>(l: &'a Link<T>, key: &T) -> (r: Option<&'a T>)
        requires
            obeys_cmp::<T>(),
            sorted(link_view(*l).inorder()),
        ensures
            r is Some <==> has_key(link_view(*l).inorder(), *key),
            r is Some ==> equiv(*key, *r.unwrap()) && link_view(*l).inorder().contains(*r.unwrap()),
        decreases l,
    {
        match l {
            None => None,
            Some(n) => {
                let ghost a = link_view(n.lc).inorder();
                let ghost b = link_view(n.rc).inorder();
                proof {
                    lemma_cmp_laws::<T>();
                    lemma_link_some(*n);
                    lemma_mk(link_view(n.lc), n.data, link_view(n.rc));
                    lemma_sorted_node(a, n.data, b);
                    lemma_has_key_node(a, n.data, b, *key);
                    lemma_contains_node(a, n.data, b);
                }
                match key.cmp(&n.data) {
                    Ordering::Equal => Some(&n.data),
                    Ordering::Less => {
                        proof { lemma_no_key_above(b, n.data, *key); }
                        Self::search_node(&n.lc, key)
                    },
                    Ordering::Greater => {
                        proof { lemma_no_key_below(a, n.data, *key); }
                        Self::search_node(&n.rc, key)
                    },
                }
            },
        }
    }

    /// Inserts `value` at the empty slot where a search for it ends; with `avl`, every node on
    /// the way back up is rebalanced as needed.
    #[verifier::rlimit(50)]
    fn insert_node(l: &mut Link<T>, value: T, avl: bool) -> (inserted: bool)
        requires
            obeys_cmp::<T>(),
            link_wf(*old(l)),
            sorted(link_view(*old(l)).inorder()),
            link_view(*old(l)).size() < usize::MAX,
            avl ==> link_view(*old(l)).is_balanced(),
        ensures
            link_wf(*final(l)),
            sorted(link_view(*final(l)).inorder()),
            inserted == !has_key(link_view(*old(l)).inorder(), value),
            inserted ==> link_view(*final(l)).size() == link_view(*old(l)).size() + 1,
            inserted ==> exists|i: int|
                0 <= i <= link_view(*old(l)).inorder().len() && link_view(*final(l)).inorder()
                    == link_view(*old(l)).inorder().insert(i, value),
            !inserted ==> link_view(*final(l)) == link_view(*old(l)),
            avl ==> link_view(*final(l)).is_balanced(),
            avl ==> link_view(*old(l)).height() <= link_view(*final(l)).height(),
            avl ==> link_view(*final(l)).height() <= link_view(*old(l)).height() + 1,
            !avl && inserted ==> exists|p: Seq<Side>|
                leaf_slot(link_view(*old(l)), p) && link_view(*final(l)) == #[trigger] link_view(
                    *old(l),
                ).replace(p, Tree::leaf(value)),
        decreases *old(l),
    {
        proof { lemma_cmp_laws::<T>(); }
        match l.take() {
            None => {
                let n = Box::new(BinNode::new(value));
                proof {
                    lemma_link_some(n);
                    lemma_mk(Tree::<T>::Nil, value, Tree::<T>::Nil);
                    let e = Seq::<Side>::empty();
                    assert(leaf_slot(Tree::<T>::Nil, e));
                    assert(Tree::<T>::Nil.replace(e, Tree::leaf(value)) == n@);
                    assert(n@.inorder() =~= Seq::<T>::empty().insert(0, value));
                    assert(sorted(n@.inorder()));
                }
                *l = Some(n);
                true
            },
            Some(mut n) => {
                let ghost t = n@;
                let ghost d = n.data;
                let ghost la = link_view(n.lc);
                let ghost rb = link_view(n.rc);
                let ghost a = la.inorder();
                let ghost b = rb.inorder();
                proof {
                    lemma_link_some(n);
                    lemma_mk(la, d, rb);
                    lemma_sorted_node(a, d, b);
                    lemma_has_key_node(a, d, b, value);
                    lemma_height_le_size(la);
                    lemma_height_le_size(rb);
                }
                match value.cmp(&n.data) {
                    Ordering::Equal => {
                        *l = Some(n);
                        false
                    },
                    Ordering::Less => {
                        proof { lemma_no_key_above(b, d, value); }
                        let inserted = Self::insert_node(&mut n.lc, value, avl);
                        let ghost la2 = link_view(n.lc);
                        proof {
                            if !avl && inserted {
                                let p1 = choose|p1: Seq<Side>|
                                    leaf_slot(la, p1) && la2 == #[trigger] la.replace(p1, Tree::leaf(value));
                                lemma_leaf_slot_cons(t, Side::Left, p1, Tree::leaf(value));
                                assert(t.replace(seq![Side::Left] + p1, Tree::leaf(value)) == mk(la2, d, rb));
                            }
                        }
                        proof {
                            lemma_mk(la2, d, rb);
                            lemma_height_le_size(la2);
                            if inserted {
                                let i = choose|i: int| 0 <= i <= a.len() && la2.inorder() == a.insert(i, value);
                                lemma_insert_bounds(a, i, value, d);
                                lemma_sorted_node(la2.inorder(), d, b);
                                assert(la2.inorder().push(d) + b =~= (a.push(d) + b).insert(i, value));
                            }
                        }
                        n.update_height();
                        proof { lemma_mk(la2, d, rb); }
                        let n = if avl { AVLTree::<T>::balance(n) } else { n };
                        proof { lemma_link_some(n); }
                        *l = Some(n);
                        inserted
                    },
                    Ordering::Greater => {
                        proof { lemma_no_key_below(a, d, value); }
                        let inserted = Self::insert_node(&mut n.rc, value, avl);
                        let ghost rb2 = link_view(n.rc);
                        proof {
                            if !avl && inserted {
                                let p1 = choose|p1: Seq<Side>|
                                    leaf_slot(rb, p1) && rb2 == #[trigger] rb.replace(p1, Tree::leaf(value));
                                lemma_leaf_slot_cons(t, Side::Right, p1, Tree::leaf(value));
                                assert(t.replace(seq![Side::Right] + p1, Tree::leaf(value)) == mk(la, d, rb2));
                            }
                        }
                        proof {
                            lemma_mk(la, d, rb2);
                            lemma_height_le_size(rb2);
                            if inserted {
                                let j = choose|j: int| 0 <= j <= b.len() && rb2.inorder() == b.insert(j, value);
                                lemma_insert_bounds(b, j, value, d);
                                lemma_sorted_node(a, d, rb2.inorder());
                                assert(a.push(d) + rb2.inorder() =~= (a.push(d) + b).insert(a.len() + 1 + j, value));
                            }
                        }
                        n.update_height();
                        proof { lemma_mk(la, d, rb2); }
                        let n = if avl { AVLTree::<T>::balance(n) } else { n };
                        proof { lemma_link_some(n); }
                        *l = Some(n);
                        inserted
                    },
                }
            },
        }
    }
}

impl<T: Ord> BinarySearchTree<T> {
    /// Unlinks the leftmost node below `n` (the in-order successor of `n`'s parent, when `n` is
    /// a right subtree) and hands back its payload with what remains of the subtree.
    fn remove_min(n: Box<BinNode<T>>, avl: bool) -> (r: (Link<T>, T))
        requires
            n.wf(),
            n@.size() <= usize::MAX,
            avl ==> n@.is_balanced(),
        ensures
            link_wf(r.0),
            n@.inorder().len() > 0,
            r.1 == n@.inorder()[0],
            link_view(r.0).inorder() == n@.inorder().drop_first(),
            link_view(r.0).size() + 1 == n@.size(),
            avl ==> link_view(r.0).is_balanced(),
            avl ==> n@.height() <= link_view(r.0).height() + 1,
            avl ==> link_view(r.0).height() <= n@.height(),
            !avl ==> link_view(r.0) == n@.without_leftmost(),
        decreases n@.size(),
    {
        let mut n = n;
        let ghost d = n.data;
        let ghost la = link_view(n.lc);
        let ghost rb = link_view(n.rc);
        proof {
            lemma_mk(la, d, rb);
            lemma_height_le_size(la);
            lemma_height_le_size(rb);
        }
        if n.lc.is_none() {
            let b = *n;
            assert(la.inorder() =~= Seq::<T>::empty());
            assert(rb.inorder() =~= (la.inorder().push(d) + rb.inorder()).drop_first());
            (b.rc, b.data)
        } else {
            proof { lemma_link_some(n.lc.unwrap()); }
            let c = n.lc.take().unwrap();
            let (rest, m) = Self::remove_min(c, avl);
            let ghost la2 = link_view(rest);
            n.lc = rest;
            proof { lemma_height_le_size(la2); }
            n.update_height();
            proof {
                lemma_mk(la2, d, rb);
                assert(la2.inorder().push(d) + rb.inorder() =~= (la.inorder().push(d) + rb.inorder()).drop_first());
            }
            let n = if avl { AVLTree::<T>::balance(n) } else { n };
            proof { lemma_link_some(n); }
            (Some(n), m)
        }
    }

    /// Unlinks the payload of `n` itself. With two children, `n` takes over the payload of its
    /// in-order successor, whose node is unlinked instead; with one child, that child's subtree
    /// takes `n`'s place. With `avl`, the nodes on the way back up are rebalanced as needed.
    fn remove_at(n: Box<BinNode<T>>, avl: bool) -> (r: (Link<T>, T))
        requires
            obeys_cmp::<T>(),
            n.wf(),
            sorted(n@.inorder()),
            n@.size() <= usize::MAX,
            avl ==> n@.is_balanced(),
        ensures
            link_wf(r.0),
            sorted(link_view(r.0).inorder()),
            r.1 == n.data,
            link_view(r.0).inorder() == n@.inorder().remove(n@.left().size() as int),
            link_view(r.0).size() + 1 == n@.size(),
            avl ==> link_view(r.0).is_balanced(),
            avl ==> n@.height() <= link_view(r.0).height() + 1,
            avl ==> link_view(r.0).height() <= n@.height(),
            !avl ==> link_view(r.0) == spliced(n@),
    {
        proof { lemma_cmp_laws::<T>(); }
        let mut n = n;
        let ghost d = n.data;
        let ghost la = link_view(n.lc);
        let ghost rb = link_view(n.rc);
        let ghost a = la.inorder();
        let ghost b = rb.inorder();
        let ghost whole = a.push(d) + b;
        let ghost i = a.len() as int;
        proof {
            lemma_mk(la, d, rb);
            lemma_sorted_node(a, d, b);
            lemma_height_le_size(la);
            lemma_height_le_size(rb);
        }
        assert(a.len() == la.size());
        if n.has_double_branch() {
            proof { lemma_link_some(n.rc.unwrap()); }
            let c = n.rc.take().unwrap();
            let (rest, mut m) = Self::remove_min(c, avl);
            let ghost rb2 = link_view(rest);
            std::mem::swap(&mut n.data, &mut m);
            n.rc = rest;
            proof {
                let e = b[0];
                assert(lt(d, e));
                assert forall|k: int| 0 <= k < a.len() implies lt(#[trigger] a[k], e) by {
                    assert(lt(a[k], d));
                }
                lemma_remove_bounds(b, 0, e);
                assert(b.remove(0) =~= b.drop_first());
                assert forall|k: int| 0 <= k < rb2.inorder().len() implies lt(e, #[trigger] rb2.inorder()[k]) by {
                    assert(rb2.inorder()[k] == b[k + 1]);
                }
                lemma_sorted_node(a, e, rb2.inorder());
                lemma_height_le_size(rb2);
                assert(a.push(e) + rb2.inorder() =~= whole.remove(i));
            }
            n.update_height();
            proof { lemma_mk(la, n.data, rb2); }
            let n = if avl { AVLTree::<T>::balance(n) } else { n };
            proof { lemma_link_some(n); }
            (Some(n), m)
        } else if n.has_lc() {
            let b0 = *n;
            proof {
                assert(b =~= Seq::<T>::empty());
                assert(a =~= whole.remove(i));
            }
            (b0.lc, b0.data)
        } else {
            let b0 = *n;
            proof {
                assert(a =~= Seq::<T>::empty());
                assert(b =~= whole.remove(i));
            }
            (b0.rc, b0.data)
        }
    }

    /// Removes the payload that compares equal to `key`, found as a search finds it.
    #[verifier::rlimit(50)]
    fn remove_node(l: &mut Link<T>, key: &T, avl: bool) -> (r: Option<T>)
        requires
            obeys_cmp::<T>(),
            link_wf(*old(l)),
            sorted(link_view(*old(l)).inorder()),
            link_view(*old(l)).size() <= usize::MAX,
            avl ==> link_view(*old(l)).is_balanced(),
        ensures
            link_wf(*final(l)),
            sorted(link_view(*final(l)).inorder()),
            r is Some <==> has_key(link_view(*old(l)).inorder(), *key),
            r is Some ==> exists|i: int|
                0 <= i < link_view(*old(l)).inorder().len()
                    && equiv(*key, link_view(*old(l)).inorder()[i])
                    && r.unwrap() == link_view(*old(l)).inorder()[i]
                    && link_view(*final(l)).inorder() == link_view(*old(l)).inorder().remove(i),
            r is Some ==> link_view(*final(l)).size() + 1 == link_view(*old(l)).size(),
            r is None ==> link_view(*final(l)) == link_view(*old(l)),
            avl ==> link_view(*final(l)).is_balanced(),
            avl ==> link_view(*old(l)).height() <= link_view(*final(l)).height() + 1,
            avl ==> link_view(*final(l)).height() <= link_view(*old(l)).height(),
            !avl && r is Some ==> exists|p: Seq<Side>|
                link_view(*old(l)).has_node(p) && equiv(*key, link_view(*old(l)).subtree(p)->data)
                    && link_view(*final(l)) == #[trigger] link_view(*old(l)).replace(
                    p,
                    spliced(link_view(*old(l)).subtree(p)),
                ),
        decreases *old(l),
    {
        proof { lemma_cmp_laws::<T>(); }
        match l.take() {
            None => {
                assert(!has_key(Seq::<T>::empty(), *key));
                None
            },
            Some(mut n) => {
                let ghost d = n.data;
                let ghost la = link_view(n.lc);
                let ghost rb = link_view(n.rc);
                let ghost a = la.inorder();
                let ghost b = rb.inorder();
                let ghost whole = a.push(d) + b;
                proof {
                    lemma_link_some(n);
                    lemma_mk(la, d, rb);
                    lemma_sorted_node(a, d, b);
                    lemma_has_key_node(a, d, b, *key);
                    lemma_height_le_size(la);
                    lemma_height_le_size(rb);
                }
                match key.cmp(&n.data) {
                    Ordering::Less => {
                        proof { lemma_no_key_above(b, d, *key); }
                        let r = Self::remove_node(&mut n.lc, key, avl);
                        let ghost la2 = link_view(n.lc);
                        proof {
                            if !avl && r is Some {
                                let p1 = choose|p1: Seq<Side>|
                                    la.has_node(p1) && equiv(*key, la.subtree(p1)->data) && la2
                                        == #[trigger] la.replace(p1, spliced(la.subtree(p1)));
                                lemma_spliced_cons(mk(la, d, rb), Side::Left, p1);
                            }
                        }
                        proof {
                            lemma_mk(la2, d, rb);
                            lemma_height_le_size(la2);
                            if r is Some {
                                let i = choose|i: int|
                                    0 <= i < a.len() && equiv(*key, a[i]) && r.unwrap() == a[i]
                                        && la2.inorder() == a.remove(i);
                                lemma_remove_bounds(a, i, d);
                                lemma_sorted_node(la2.inorder(), d, b);
                                assert(whole[i] == a[i]);
                                assert(la2.inorder().push(d) + b =~= whole.remove(i));
                            }
                        }
                        n.update_height();
                        proof { lemma_mk(la2, d, rb); }
                        let n = if avl { AVLTree::<T>::balance(n) } else { n };
                        proof { lemma_link_some(n); }
                        *l = Some(n);
                        r
                    },
                    Ordering::Greater => {
                        proof { lemma_no_key_below(a, d, *key); }
                        let r = Self::remove_node(&mut n.rc, key, avl);
                        let ghost rb2 = link_view(n.rc);
                        proof {
                            if !avl && r is Some {
                                let p1 = choose|p1: Seq<Side>|
                                    rb.has_node(p1) && equiv(*key, rb.subtree(p1)->data) && rb2
                                        == #[trigger] rb.replace(p1, spliced(rb.subtree(p1)));
                                lemma_spliced_cons(mk(la, d, rb), Side::Right, p1);
                            }
                        }
                        proof {
                            lemma_mk(la, d, rb2);
                            lemma_height_le_size(rb2);
                            if r is Some {
                                let j = choose|j: int|
                                    0 <= j < b.len() && equiv(*key, b[j]) && r.unwrap() == b[j]
                                        && rb2.inorder() == b.remove(j);
                                lemma_remove_bounds(b, j, d);
                                lemma_sorted_node(a, d, rb2.inorder());
                                let i = a.len() + 1 + j;
                                assert(whole[i] == b[j]);
                                assert(a.push(d) + rb2.inorder() =~= whole.remove(i));
                            }
                        }
                        n.update_height();
                        proof { lemma_mk(la, d, rb2); }
                        let n = if avl { AVLTree::<T>::balance(n) } else { n };
                        proof { lemma_link_some(n); }
                        *l = Some(n);
                        r
                    },
                    Ordering::Equal => {
                        proof { lemma_height_le_size(n@); }
                        let ghost t = n@;
                        let (rest, m) = Self::remove_at(n, avl);
                        proof {
                            assert(whole[a.len() as int] == d);
                            let e = Seq::<Side>::empty();
                            assert(t.subtree(e) == t);
                            assert(t.replace(e, spliced(t)) == spliced(t));
                        }
                        *l = rest;
                        Some(m)
                    },
                }
            },
        }
    }
}

impl<T: Ord> BinarySearchTree<T> {
    /// The tree of payloads.
    pub open(crate) spec fn view(&self) -> Tree<T> {
        self.bin_tree@
    }

    /// The count is right and the payloads ascend strictly in order.
    pub open(crate) spec fn wf(&self) -> bool {
        &&& self.bin_tree.wf()
        &&& sorted(self@.inorder())
    }

    /// An empty tree.
    pub fn new() -> (t: Self)
        ensures
            t.wf(),
            t@ == Tree::<T>::Nil,
    {
        BinarySearchTree { bin_tree: BinTree::new() }
    }

    /// Number of payloads held.
    pub fn size(&self) -> (r: usize)
        requires
            self.wf(),
        ensures
            r == self@.size(),
            r == self@.inorder().len(),
    {
        proof { lemma_height_le_size(self@); }
        self.bin_tree.size()
    }

    pub fn empty(&self) -> (r: bool)
        requires
            self.wf(),
        ensures
            r == (self@.size() == 0),
    {
        self.bin_tree.empty()
    }

    /// Height of the tree (0 when empty).
    pub fn height(&self) -> (r: usize)
        requires
            self.wf(),
        ensures
            r == self@.height(),
    {
        BinNode::stature(&self.bin_tree.root)
    }

    /// The payload that compares equal to `key`, if there is one.
    pub fn search(&self, key: &T) -> (r: Option<&T>)
        requires
            obeys_cmp::<T>(),
            self.wf(),
        ensures
            r is Some <==> has_key(self@.inorder(), *key),
            r is Some ==> equiv(*key, *r.unwrap()) && self@.inorder().contains(*r.unwrap()),
    {
        Self::search_node(&self.bin_tree.root, key)
    }

    /// Adds `value` as a new leaf in the empty slot where a search for it ends, every other
    /// link kept. A payload that compares equal to it already there makes this a no-op that
    /// returns `false`.
    pub fn insert(&mut self, value: T) -> (inserted: bool)
        requires
            obeys_cmp::<T>(),
            old(self).wf(),
            old(self)@.size() < usize::MAX,
        ensures
            final(self).wf(),
            sorted(final(self)@.inorder()),
            inserted == !has_key(old(self)@.inorder(), value),
            has_key(final(self)@.inorder(), value),
            inserted ==> final(self)@.size() == old(self)@.size() + 1,
            inserted ==> exists|i: int|
                0 <= i <= old(self)@.inorder().len() && final(self)@.inorder() == old(self)@.inorder().insert(
                    i,
                    value,
                ),
            !inserted ==> final(self)@ == old(self)@,
            inserted ==> exists|p: Seq<Side>|
                leaf_slot(old(self)@, p) && final(self)@ == #[trigger] old(self)@.replace(p, Tree::leaf(value)),
    {
        let ghost before = self@.inorder();
        let inserted = Self::insert_node(&mut self.bin_tree.root, value, false);
        proof { lemma_insert_then_search(before, value, self@.inorder()); }
        if inserted {
            self.bin_tree.size = self.bin_tree.size + 1;
        }
        inserted
    }

    /// Takes out the payload that compares equal to `key` and hands it back; absent when
    /// there is none, and then nothing changes. A node with at most one child is replaced by
    /// that child's subtree; a node with two children takes over its in-order successor's
    /// payload and the successor's node is spliced out instead.
    pub fn remove(&mut self, key: &T) -> (r: Option<T>)
        requires
            obeys_cmp::<T>(),
            old(self).wf(),
        ensures
            final(self).wf(),
            sorted(final(self)@.inorder()),
            r is Some <==> has_key(old(self)@.inorder(), *key),
            !has_key(final(self)@.inorder(), *key),
            r is Some ==> exists|i: int|
                0 <= i < old(self)@.inorder().len() && equiv(*key, old(self)@.inorder()[i]) && r.unwrap()
                    == old(self)@.inorder()[i] && final(self)@.inorder() == old(self)@.inorder().remove(i),
            r is Some ==> final(self)@.size() + 1 == old(self)@.size(),
            r is None ==> final(self)@ == old(self)@,
            r is Some ==> exists|p: Seq<Side>|
                old(self)@.has_node(p) && equiv(*key, old(self)@.subtree(p)->data) && final(self)@
                    == #[trigger] old(self)@.replace(p, spliced(old(self)@.subtree(p))),
    {
        let ghost before = self@.inorder();
        let r = Self::remove_node(&mut self.bin_tree.root, key, false);
        proof { lemma_remove_then_search(before, *key, self@.inorder()); }
        if r.is_some() {
            self.bin_tree.size = self.bin_tree.size - 1;
        }
        r
    }

    /// References to the payloads in ascending order.
    pub fn iter(&self) -> (r: Vec<&T>)
        requires
            self.wf(),
        ensures
            deref_seq(r@) == self@.inorder(),
    {
        let mut out: Vec<&T> = Vec::new();
        collect_inorder(&self.bin_tree.root, &mut out);
        assert(deref_seq(out@) =~= self@.inorder());
        out
    }
}

impl<T: Ord> AVLTree<T> {
    /// The tree of payloads.
    pub open(crate) spec fn view(&self) -> Tree<T> {
        self.bst@
    }

    /// A well-formed search tree that is AVL-balanced.
    pub open(crate) spec fn wf(&self) -> bool {
        &&& self.bst.wf()
        &&& self@.is_balanced()
    }

    /// An empty tree.
    pub fn new() -> (t: Self)
        ensures
            t.wf(),
            t@ == Tree::<T>::Nil,
    {
        AVLTree { bst: BinarySearchTree::new() }
    }

    /// Number of payloads held.
    pub fn size(&self) -> (r: usize)
        requires
            self.wf(),
        ensures
            r == self@.size(),
            r == self@.inorder().len(),
    {
        self.bst.size()
    }

    pub fn empty(&self) -> (r: bool)
        requires
            self.wf(),
        ensures
            r == (self@.size() == 0),
    {
        self.bst.empty()
    }

    /// Height of the tree (0 when empty); balance keeps it logarithmic in the size.
    pub fn height(&self) -> (r: usize)
        requires
            self.wf(),
        ensures
            r == self@.height(),
            fib(r as nat + 2) <= self@.size() + 1,
    {
        proof { lemma_avl_min_size(self@); }
        self.bst.height()
    }

    /// The payload that compares equal to `key`, if there is one.
    pub fn search(&self, key: &T) -> (r: Option<&T>)
        requires
            obeys_cmp::<T>(),
            self.wf(),
        ensures
            r is Some <==> has_key(self@.inorder(), *key),
            r is Some ==> equiv(*key, *r.unwrap()) && self@.inorder().contains(*r.unwrap()),
    {
        self.bst.search(key)
    }

    /// Adds `value` at its place in the order and restores balance on the way back to the
    /// root. A payload that compares equal to it already there makes this a no-op that
    /// returns `false`.
    pub fn insert(&mut self, value: T) -> (inserted: bool)
        requires
            obeys_cmp::<T>(),
            old(self).wf(),
            old(self)@.size() < usize::MAX,
        ensures
            final(self).wf(),
            sorted(final(self)@.inorder()),
            final(self)@.is_balanced(),
            inserted == !has_key(old(self)@.inorder(), value),
            has_key(final(self)@.inorder(), value),
            inserted ==> final(self)@.size() == old(self)@.size() + 1,
            inserted ==> exists|i: int|
                0 <= i <= old(self)@.inorder().len() && final(self)@.inorder() == old(self)@.inorder().insert(
                    i,
                    value,
                ),
            !inserted ==> final(self)@ == old(self)@,
    {
        let ghost before = self@.inorder();
        let inserted = BinarySearchTree::insert_node(&mut self.bst.bin_tree.root, value, true);
        proof { lemma_insert_then_search(before, value, self@.inorder()); }
        if inserted {
            self.bst.bin_tree.size = self.bst.bin_tree.size + 1;
        }
        inserted
    }

    /// Takes out the payload that compares equal to `key`, restores balance on the way back
    /// to the root, and hands the payload back; absent when there is none, and then nothing
    /// changes.
    pub fn remove(&mut self, key: &T) -> (r: Option<T>)
        requires
            obeys_cmp::<T>(),
            old(self).wf(),
        ensures
            final(self).wf(),
            sorted(final(self)@.inorder()),
            final(self)@.is_balanced(),
            r is Some <==> has_key(old(self)@.inorder(), *key),
            !has_key(final(self)@.inorder(), *key),
            r is Some ==> exists|i: int|
                0 <= i < old(self)@.inorder().len() && equiv(*key, old(self)@.inorder()[i]) && r.unwrap()
                    == old(self)@.inorder()[i] && final(self)@.inorder() == old(self)@.inorder().remove(i),
            r is Some ==> final(self)@.size() + 1 == old(self)@.size(),
            r is None ==> final(self)@ == old(self)@,
    {
        let ghost before = self@.inorder();
        let r = BinarySearchTree::remove_node(&mut self.bst.bin_tree.root, key, true);
        proof { lemma_remove_then_search(before, *key, self@.inorder()); }
        if r.is_some() {
            self.bst.bin_tree.size = self.bst.bin_tree.size - 1;
        }
        r
    }

    /// References to the payloads in ascending order.
    pub fn iter(&self) -> (r: Vec<&T>)
        requires
            self.wf(),
        ensures
            deref_seq(r@) == self@.inorder(),
    {
        self.bst.iter()
    }
}

impl<T> AVLTree<T> {
    /// How far apart the heights of the two subtrees of `n` are.
    fn bal_fac(n: &BinNode<T>) -> (r: usize)
        requires
            n.wf(),
        ensures
            r == (if skew(n@) >= 0 { skew(n@) } else { -skew(n@) }),
    {
        let a = BinNode::stature(&n.lc);
        let b = BinNode::stature(&n.rc);
        if a < b {
            return b - a;
        }
        a - b
    }

    /// Whether the subtrees of `n` differ in height by at most one.
    fn is_avl_balanced(n: &BinNode<T>) -> (r: bool)
        requires
            n.wf(),
        ensures
            r == (-1 <= skew(n@) <= 1),
    {
        Self::bal_fac(n) < 2
    }

    /// The side of the taller subtree of `n`; on a tie, `prefer`.
    fn taller_child(n: &BinNode<T>, prefer: Side) -> (s: Side)
        requires
            n.wf(),
        ensures
            skew(n@) > 0 ==> s == Side::Left,
            skew(n@) < 0 ==> s == Side::Right,
            skew(n@) == 0 ==> s == prefer,
    {
        let a = BinNode::stature(&n.lc);
        let b = BinNode::stature(&n.rc);
        match a.cmp(&b) {
            Ordering::Greater => Side::Left,
            Ordering::Less => Side::Right,
            Ordering::Equal => prefer,
        }
    }

    /// Restores balance at `g`, whose subtrees differ in height by two, by seceding `g`, its
    /// taller child `p` and `p`'s taller child, with the four subtrees below them, and
    /// reconnecting them as `b(a(t0, t1), c(t2, t3))` in ascending order.
    fn balance_node(g: Box<BinNode<T>>) -> (r: Box<BinNode<T>>)
        requires
            g.wf(),
            g@.left().is_balanced(),
            g@.right().is_balanced(),
            skew(g@) == 2 || skew(g@) == -2,
            g@.size() <= usize::MAX,
        ensures
            r.wf(),
            r@.is_balanced(),
            r@.inorder() == g@.inorder(),
            r@.size() == g@.size(),
            max_nat(g@.left().height(), g@.right().height()) <= r@.height(),
            r@.height() <= max_nat(g@.left().height(), g@.right().height()) + 1,
            skew(g@) == 2 && skew(g@.left()) >= 0 ==> r@ == rebuilt(
                g@.left().left().left(), g@.left().left()->data, g@.left().left().right(),
                g@.left()->data, g@.left().right(), g@->data, g@.right(),
            ),
            skew(g@) == 2 && skew(g@.left()) < 0 ==> r@ == rebuilt(
                g@.left().left(), g@.left()->data, g@.left().right().left(),
                g@.left().right()->data, g@.left().right().right(), g@->data, g@.right(),
            ),
            skew(g@) == -2 && skew(g@.right()) <= 0 ==> r@ == rebuilt(
                g@.left(), g@->data, g@.right().left(), g@.right()->data,
                g@.right().right().left(), g@.right().right()->data, g@.right().right().right(),
            ),
            skew(g@) == -2 && skew(g@.right()) > 0 ==> r@ == rebuilt(
                g@.left(), g@->data, g@.right().left().left(), g@.right().left()->data,
                g@.right().left().right(), g@.right()->data, g@.right().right(),
            ),
    {
        let mut g = g;
        let ghost tg = g@;
        proof {
            lemma_mk(tg.left(), g.data, tg.right());
        }
        let ps = Self::taller_child(&g, Side::Left);
        if ps == Side::Left {
            proof { lemma_link_some(g.lc.unwrap()); }
            let mut p = g.lc.take().unwrap();
            let ghost tp = p@;
            proof { lemma_mk(tp.left(), p.data, tp.right()); }
            let cs = Self::taller_child(&p, Side::Left);
            if cs == Side::Left {
                proof { lemma_link_some(p.lc.unwrap()); }
                let mut c = p.lc.take().unwrap();
                let ghost tc = c@;
                proof {
                    lemma_mk(tc.left(), c.data, tc.right());
                    lemma_height_le_size(tc.left());
                    lemma_height_le_size(tc.right());
                    lemma_height_le_size(tp.right());
                    lemma_height_le_size(tg.right());
                    lemma_rotate_ll(tc.left(), c.data, tc.right(), p.data, tp.right(), g.data, tg.right());
                }
                let t0 = c.lc.take();
                let t1 = c.rc.take();
                let t2 = p.rc.take();
                let t3 = g.rc.take();
                connect34(c, p, g, t0, t1, t2, t3)
            } else {
                proof { lemma_link_some(p.rc.unwrap()); }
                let mut c = p.rc.take().unwrap();
                let ghost tc = c@;
                proof {
                    lemma_mk(tc.left(), c.data, tc.right());
                    lemma_height_le_size(tp.left());
                    lemma_height_le_size(tc.left());
                    lemma_height_le_size(tc.right());
                    lemma_height_le_size(tg.right());
                    lemma_rotate_lr(tp.left(), p.data, tc.left(), c.data, tc.right(), g.data, tg.right());
                }
                let t0 = p.lc.take();
                let t1 = c.lc.take();
                let t2 = c.rc.take();
                let t3 = g.rc.take();
                connect34(p, c, g, t0, t1, t2, t3)
            }
        } else {
            proof { lemma_link_some(g.rc.unwrap()); }
            let mut p = g.rc.take().unwrap();
            let ghost tp = p@;
            proof { lemma_mk(tp.left(), p.data, tp.right()); }
            let cs = Self::taller_child(&p, Side::Right);
            if cs == Side::Right {
                proof { lemma_link_some(p.rc.unwrap()); }
                let mut c = p.rc.take().unwrap();
                let ghost tc = c@;
                proof {
                    lemma_mk(tc.left(), c.data, tc.right());
                    lemma_height_le_size(tg.left());
                    lemma_height_le_size(tp.left());
                    lemma_height_le_size(tc.left());
                    lemma_height_le_size(tc.right());
                    lemma_rotate_rr(tg.left(), g.data, tp.left(), p.data, tc.left(), c.data, tc.right());
                }
                let t0 = g.lc.take();
                let t1 = p.lc.take();
                let t2 = c.lc.take();
                let t3 = c.rc.take();
                connect34(g, p, c, t0, t1, t2, t3)
            } else {
                proof { lemma_link_some(p.lc.unwrap()); }
                let mut c = p.lc.take().unwrap();
                let ghost tc = c@;
                proof {
                    lemma_mk(tc.left(), c.data, tc.right());
                    lemma_height_le_size(tg.left());
                    lemma_height_le_size(tc.left());
                    lemma_height_le_size(tc.right());
                    lemma_height_le_size(tp.right());
                    lemma_rotate_rl(tg.left(), g.data, tc.left(), c.data, tc.right(), p.data, tp.right());
                }
                let t0 = g.lc.take();
                let t1 = c.lc.take();
                let t2 = c.rc.take();
                let t3 = p.rc.take();
                connect34(g, c, p, t0, t1, t2, t3)
            }
        }
    }

    /// Leaves a balanced node as it is and rebuilds one whose subtrees differ in height by two.
    fn balance(n: Box<BinNode<T>>) -> (r: Box<BinNode<T>>)
        requires
            n.wf(),
            n@.left().is_balanced(),
            n@.right().is_balanced(),
            -2 <= skew(n@) <= 2,
            n@.size() <= usize::MAX,
        ensures
            r.wf(),
            r@.is_balanced(),
            r@.inorder() == n@.inorder(),
            r@.size() == n@.size(),
            -1 <= skew(n@) <= 1 ==> r@ == n@,
            max_nat(n@.left().height(), n@.right().height()) <= r@.height(),
            r@.height() <= max_nat(n@.left().height(), n@.right().height()) + 1,
            skew(n@) == 2 && skew(n@.left()) >= 0 ==> r@ == rebuilt(
                n@.left().left().left(), n@.left().left()->data, n@.left().left().right(),
                n@.left()->data, n@.left().right(), n@->data, n@.right(),
            ),
            skew(n@) == 2 && skew(n@.left()) < 0 ==> r@ == rebuilt(
                n@.left().left(), n@.left()->data, n@.left().right().left(),
                n@.left().right()->data, n@.left().right().right(), n@->data, n@.right(),
            ),
            skew(n@) == -2 && skew(n@.right()) <= 0 ==> r@ == rebuilt(
                n@.left(), n@->data, n@.right().left(), n@.right()->data,
                n@.right().right().left(), n@.right().right()->data, n@.right().right().right(),
            ),
            skew(n@) == -2 && skew(n@.right()) > 0 ==> r@ == rebuilt(
                n@.left(), n@->data, n@.right().left().left(), n@.right().left()->data,
                n@.right().left().right(), n@.right()->data, n@.right().right(),
            ),
    {
        proof { lemma_mk(n@.left(), n.data, n@.right()); }
        if Self::is_avl_balanced(&n) {
            n
        } else {
            Self::balance_node(n)
        }
    }
}

} // verus!
