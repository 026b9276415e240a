use vstd::prelude::*;
use super::shape::{
    Side, Tree, lemma_mk, lemma_height_le_size, lemma_path_step, lemma_subtree_push, lemma_prefix_has_node,
    lemma_set_data_shape,
};
use super::node::{BinNode, Node, InsertErr, Link, link_view, link_wf, lemma_link_some, deref_seq, collect_preorder};

verus! {


/// A handle to a node of a `BinTree`: the steps that lead to it from the root.
///
/// A handle stays meaningful as long as the nodes above it are not moved.
#[derive(Clone, Debug, PartialEq, Eq)]
pub struct NodePos {
    pub steps: Vec<Side>,
}

impl View for NodePos {
    type V = Seq<Side>;

    open spec fn view(&self) -> Seq<Side> {
        self.steps@
    }
}

/// Every step goes left.
pub open spec fn all_left(s: Seq<Side>) -> bool {
    forall|i: int| 0 <= i < s.len() ==> #[trigger] s[i] == Side::Left
}

/// Every step goes right.
pub open spec fn all_right(s: Seq<Side>) -> bool {
    forall|i: int| 0 <= i < s.len() ==> #[trigger] s[i] == Side::Right
}

impl NodePos {
    /// The handle of the root.
    pub fn root() -> (r: NodePos)
        ensures
            r@ == Seq::<Side>::empty(),
    {
        NodePos { steps: Vec::new() }
    }

    /// The handle of the `side` child of this node.
    pub fn child(&self, side: Side) -> (r: NodePos)
        ensures
            r@ == self@.push(side),
    {
        let mut steps = self.prefix(self.steps.len()).steps;
        assert(steps@ =~= self@);
        steps.push(side);
        NodePos { steps }
    }

    /// The handle of the ancestor reached by the first `m` steps.
    pub fn prefix(&self, m: usize) -> (r: NodePos)
        requires
            m <= self@.len(),
        ensures
            r@ == self@.subrange(0, m as int),
    {
        let mut steps: Vec<Side> = Vec::new();
        let mut i: usize = 0;
        while i < m
            invariant
                i <= m <= self.steps.len(),
                steps@ == self@.subrange(0, i as int),
            decreases m - i,
        {
            steps.push(self.steps[i]);
            i = i + 1;
        }
        NodePos { steps }
    }

    /// The handle of the parent, absent for the root.
    pub fn parent(&self) -> (r: Option<NodePos>)
        ensures
            self@.len() == 0 ==> r is None,
            self@.len() > 0 ==> r is Some && r.unwrap()@ == self@.drop_last(),
    {
        if self.steps.len() == 0 {
            return None;
        }
        let q = self.prefix(self.steps.len() - 1);
        assert(q@ =~= self@.drop_last());
        Some(q)
    }

    pub fn is_root(&self) -> (r: bool)
        ensures
            r == (self@.len() == 0),
    {
        self.steps.len() == 0
    }

    /// Whether this node hangs in its parent's left slot.
    pub fn is_lc(&self) -> (r: bool)
        ensures
            r == (self@.len() > 0 && self@.last() == Side::Left),
    {
        self.steps.len() > 0 && self.steps[self.steps.len() - 1] == Side::Left
    }

    /// Whether this node hangs in its parent's right slot.
    pub fn is_rc(&self) -> (r: bool)
        ensures
            r == (self@.len() > 0 && self@.last() == Side::Right),
    {
        !self.is_lc() && !self.is_root()
    }
}

/// What a stack of subtrees still has to yield, top of the stack first, each subtree root
/// first, then its left subtree, then its right subtree.
pub open spec fn pending<T>(s: Seq<&BinNode<T>>) -> Seq<T>
    decreases s.len(),
{
    if s.len() == 0 {
        Seq::empty()
    } else {
        s.last()@.preorder() + pending(s.drop_last())
    }
}

/// A forward walk over the payloads of a tree, each node before its left subtree and that
/// before its right subtree.
pub struct Iter<'a, T> {
    pub(crate) stack: Vec<&'a BinNode<T>>,
}

impl<'a, T> Iter<'a, T> {
    /// The payloads still to come.
    pub open(crate) spec fn view(&self) -> Seq<T> {
        pending(self.stack@)
    }

    /// The next payload, absent once the walk is over.
    pub fn next(&mut self) -> (r: Option<&'a T>)
        ensures
            old(self)@.len() == 0 ==> r is None && final(self)@ == old(self)@,
            old(self)@.len() > 0 ==> r is Some && *r.unwrap() == old(self)@[0] && final(self)@
                == old(self)@.drop_first(),
    {
        let ghost s0 = self.stack@;
        match self.stack.pop() {
            None => None,
            Some(n) => {
                let ghost rest = pending(self.stack@);
                assert(s0.drop_last() == self.stack@);
                proof { lemma_mk(link_view(n.lc), n.data, link_view(n.rc)); }
                if let Some(c) = &n.rc {
                    let ghost s1 = self.stack@;
                    self.stack.push(&**c);
                    proof { lemma_link_some(*c); }
                    assert(self.stack@.drop_last() == s1);
                }
                assert(pending(self.stack@) == link_view(n.rc).preorder() + rest);
                let ghost mid = pending(self.stack@);
                if let Some(c) = &n.lc {
                    let ghost s2 = self.stack@;
                    self.stack.push(&**c);
                    proof { lemma_link_some(*c); }
                    assert(self.stack@.drop_last() == s2);
                }
                assert(pending(self.stack@) == link_view(n.lc).preorder() + mid);
                assert(pending(s0) == n@.preorder() + rest);
                assert(pending(self.stack@) =~= pending(s0).drop_first());
                Some(&n.data)
            },
        }
    }

    /// Runs the walk to its end and counts the payloads it yields.
    pub fn count(self) -> (r: usize)
        requires
            self@.len() <= usize::MAX,
        ensures
            r == self@.len(),
    {
        let mut it = self;
        let mut k: usize = 0;
        while it.stack.len() > 0
            invariant
                k + it@.len() == self@.len(),
                self@.len() <= usize::MAX,
            decreases it@.len(),
        {
            proof {
                let s = it.stack@;
                lemma_mk(link_view(s.last().lc), s.last().data, link_view(s.last().rc));
            }
            let _ = it.next();
            k = k + 1;
        }
        assert(it.stack@.len() == 0);
        k
    }
}

/// A binary tree that owns all its nodes, with a running count of them.
pub struct BinTree<T> {
    pub(crate) root: Link<T>,
    pub(crate) size: usize,
}

/// The plain binary tree, for callers that shape the tree themselves.
pub type RawBinTree<T> = BinTree<T>;

impl<T> BinTree<T> {
    /// The tree of values this container holds.
    pub open(crate) spec fn view(&self) -> Tree<T> {
        link_view(self.root)
    }
}

/// The node that `path[i..]` leads to from `node`.
fn node_at<'a, T>(node: &'a BinNode<T>, path: &Vec<Side>, i: usize) -> (r: &'a BinNode<T>)
    requires
        node.wf(),
        i <= path@.len(),
        node@.has_node(path@.subrange(i as int, path@.len() as int)),
    ensures
        r.wf(),
        r@ == node@.subtree(path@.subrange(i as int, path@.len() as int)),
    decreases path@.len() - i,
{
    let ghost p = path@.subrange(i as int, path@.len() as int);
    if i == path.len() {
        node
    } else {
        assert(p.drop_first() =~= path@.subrange(i + 1, path@.len() as int));
        assert(p[0] == path@[i as int]);
        proof { lemma_path_step(node@, p, Tree::Nil); }
        if path[i] == Side::Left {
            proof { lemma_link_some(node.lc.unwrap()); }
            node_at(node.lc.as_ref().unwrap(), path, i + 1)
        } else {
            proof { lemma_link_some(node.rc.unwrap()); }
            node_at(node.rc.as_ref().unwrap(), path, i + 1)
        }
    }
}

/// The tree with the payloads at `a` and `b` exchanged, links untouched.
pub open spec fn swapped<T>(t: Tree<T>, a: Seq<Side>, b: Seq<Side>) -> Tree<T> {
    t.set_data(a, t.subtree(b)->data).set_data(b, t.subtree(a)->data)
}

/// Exchanges `*x` with the payload of the node that `path[k..]` leads to from `node`.
fn exchange<T>(x: &mut T, node: &mut BinNode<T>, path: &Vec<Side>, k: usize)
    requires
        old(node).wf(),
        k <= path@.len(),
        old(node)@.has_node(path@.subrange(k as int, path@.len() as int)),
    ensures
        final(node).wf(),
        *final(x) == old(node)@.subtree(path@.subrange(k as int, path@.len() as int))->data,
        final(node)@ == old(node)@.set_data(path@.subrange(k as int, path@.len() as int), *old(x)),
    decreases path@.len() - k,
{
    let ghost p = path@.subrange(k as int, path@.len() as int);
    let ghost q = path@.subrange(k + 1, path@.len() as int);
    let ghost t0 = node@;
    let ghost v = *x;
    if k == path.len() {
        std::mem::swap(x, &mut node.data);
    } else {
        assert(p.drop_first() =~= q);
        assert(p[0] == path@[k as int]);
        proof { lemma_path_step(t0, p, Tree::Nil); }
        if path[k] == Side::Left {
            proof { lemma_link_some(node.lc.unwrap()); }
            let mut c = node.lc.take().unwrap();
            exchange(x, &mut c, path, k + 1);
            proof {
                lemma_set_data_shape(t0.left(), q, v);
                lemma_link_some(c);
            }
            node.lc = Some(c);
        } else {
            proof { lemma_link_some(node.rc.unwrap()); }
            let mut c = node.rc.take().unwrap();
            exchange(x, &mut c, path, k + 1);
            proof {
                lemma_set_data_shape(t0.right(), q, v);
                lemma_link_some(c);
            }
            node.rc = Some(c);
        }
    }
}

/// Exchanges the payload at `pa[i..]` below `na` with the payload at `pb[j..]` below `nb`.
fn exchange_pair<T>(na: &mut BinNode<T>, pa: &Vec<Side>, i: usize, nb: &mut BinNode<T>, pb: &Vec<Side>, j: usize)
    requires
        old(na).wf(),
        old(nb).wf(),
        i <= pa@.len(),
        j <= pb@.len(),
        old(na)@.has_node(pa@.subrange(i as int, pa@.len() as int)),
        old(nb)@.has_node(pb@.subrange(j as int, pb@.len() as int)),
    ensures
        final(na).wf(),
        final(nb).wf(),
        final(na)@ == old(na)@.set_data(
            pa@.subrange(i as int, pa@.len() as int),
            old(nb)@.subtree(pb@.subrange(j as int, pb@.len() as int))->data,
        ),
        final(nb)@ == old(nb)@.set_data(
            pb@.subrange(j as int, pb@.len() as int),
            old(na)@.subtree(pa@.subrange(i as int, pa@.len() as int))->data,
        ),
    decreases pa@.len() - i,
{
    let ghost p = pa@.subrange(i as int, pa@.len() as int);
    let ghost q = pa@.subrange(i + 1, pa@.len() as int);
    let ghost t0 = na@;
    let ghost u0 = nb@;
    if i == pa.len() {
        exchange(&mut na.data, nb, pb, j);
    } else {
        assert(p.drop_first() =~= q);
        assert(p[0] == pa@[i as int]);
        proof { lemma_path_step(t0, p, Tree::Nil); }
        if pa[i] == Side::Left {
            proof { lemma_link_some(na.lc.unwrap()); }
            let mut c = na.lc.take().unwrap();
            exchange_pair(&mut c, pa, i + 1, nb, pb, j);
            proof {
                lemma_set_data_shape(t0.left(), q, u0.subtree(pb@.subrange(j as int, pb@.len() as int))->data);
                lemma_link_some(c);
            }
            na.lc = Some(c);
        } else {
            proof { lemma_link_some(na.rc.unwrap()); }
            let mut c = na.rc.take().unwrap();
            exchange_pair(&mut c, pa, i + 1, nb, pb, j);
            proof {
                lemma_set_data_shape(t0.right(), q, u0.subtree(pb@.subrange(j as int, pb@.len() as int))->data);
                lemma_link_some(c);
            }
            na.rc = Some(c);
        }
    }
}

/// Exchanges the payloads at `pa[i..]` and `pb[j..]` below `node`.
fn swap_at<T>(node: &mut BinNode<T>, pa: &Vec<Side>, i: usize, pb: &Vec<Side>, j: usize)
    requires
        old(node).wf(),
        i <= pa@.len(),
        j <= pb@.len(),
        old(node)@.has_node(pa@.subrange(i as int, pa@.len() as int)),
        old(node)@.has_node(pb@.subrange(j as int, pb@.len() as int)),
    ensures
        final(node).wf(),
        final(node)@ == swapped(
            old(node)@,
            pa@.subrange(i as int, pa@.len() as int),
            pb@.subrange(j as int, pb@.len() as int),
        ),
    decreases pa@.len() - i,
{
    let ghost p = pa@.subrange(i as int, pa@.len() as int);
    let ghost q = pb@.subrange(j as int, pb@.len() as int);
    let ghost p1 = pa@.subrange(i + 1, pa@.len() as int);
    let ghost q1 = pb@.subrange(j + 1, pb@.len() as int);
    let ghost t0 = node@;
    if i == pa.len() && j == pb.len() {
        assert(swapped(t0, p, q) == t0);
        return;
    }
    if i < pa.len() {
        assert(p.drop_first() =~= p1);
        assert(p[0] == pa@[i as int]);
        proof {
            lemma_path_step(t0, p, Tree::Nil);
        }
    }
    if j < pb.len() {
        assert(q.drop_first() =~= q1);
        assert(q[0] == pb@[j as int]);
        proof {
            lemma_path_step(t0, q, Tree::Nil);
        }
    }
    if i == pa.len() {
        if pb[j] == Side::Left {
            proof { lemma_link_some(node.lc.unwrap()); lemma_set_data_shape(t0.left(), q1, t0->data); }
            let mut c = node.lc.take().unwrap();
            exchange(&mut node.data, &mut c, pb, j + 1);
            proof { lemma_link_some(c); }
            node.lc = Some(c);
        } else {
            proof { lemma_link_some(node.rc.unwrap()); lemma_set_data_shape(t0.right(), q1, t0->data); }
            let mut c = node.rc.take().unwrap();
            exchange(&mut node.data, &mut c, pb, j + 1);
            proof { lemma_link_some(c); }
            node.rc = Some(c);
        }
    } else if j == pb.len() {
        if pa[i] == Side::Left {
            proof { lemma_link_some(node.lc.unwrap()); lemma_set_data_shape(t0.left(), p1, t0->data); }
            let mut c = node.lc.take().unwrap();
            exchange(&mut node.data, &mut c, pa, i + 1);
            proof { lemma_link_some(c); }
            node.lc = Some(c);
        } else {
            proof { lemma_link_some(node.rc.unwrap()); lemma_set_data_shape(t0.right(), p1, t0->data); }
            let mut c = node.rc.take().unwrap();
            exchange(&mut node.data, &mut c, pa, i + 1);
            proof { lemma_link_some(c); }
            node.rc = Some(c);
        }
    } else if pa[i] == pb[j] {
        if pa[i] == Side::Left {
            proof { lemma_link_some(node.lc.unwrap()); }
            let mut c = node.lc.take().unwrap();
            swap_at(&mut c, pa, i + 1, pb, j + 1);
            proof {
                lemma_set_data_shape(t0.left(), p1, t0.left().subtree(q1)->data);
                lemma_set_data_shape(t0.left().set_data(p1, t0.left().subtree(q1)->data), q1, t0.left().subtree(p1)->data);
                lemma_link_some(c);
            }
            node.lc = Some(c);
        } else {
            proof { lemma_link_some(node.rc.unwrap()); }
            let mut c = node.rc.take().unwrap();
            swap_at(&mut c, pa, i + 1, pb, j + 1);
            proof {
                lemma_set_data_shape(t0.right(), p1, t0.right().subtree(q1)->data);
                lemma_set_data_shape(t0.right().set_data(p1, t0.right().subtree(q1)->data), q1, t0.right().subtree(p1)->data);
                lemma_link_some(c);
            }
            node.rc = Some(c);
        }
    } else {
        proof {
            lemma_link_some(node.lc.unwrap());
            lemma_link_some(node.rc.unwrap());
        }
        let mut l = node.lc.take().unwrap();
        let mut r = node.rc.take().unwrap();
        if pa[i] == Side::Left {
            exchange_pair(&mut l, pa, i + 1, &mut r, pb, j + 1);
            proof {
                lemma_set_data_shape(t0.left(), p1, t0.right().subtree(q1)->data);
                lemma_set_data_shape(t0.right(), q1, t0.left().subtree(p1)->data);
            }
        } else {
            exchange_pair(&mut r, pa, i + 1, &mut l, pb, j + 1);
            proof {
                lemma_set_data_shape(t0.right(), p1, t0.left().subtree(q1)->data);
                lemma_set_data_shape(t0.left(), q1, t0.right().subtree(p1)->data);
            }
        }
        proof {
            lemma_link_some(l);
            lemma_link_some(r);
        }
        node.lc = Some(l);
        node.rc = Some(r);
    }
}

/// Puts `sub` into the empty `side` slot of the node that `path[i..]` leads to from `node`.
fn graft_at<T>(node: &mut BinNode<T>, path: &Vec<Side>, i: usize, side: Side, sub: Link<T>) -> (r: Result<(), InsertErr>)
    requires
        old(node).wf(),
        link_wf(sub),
        i <= path@.len(),
        old(node)@.has_node(path@.subrange(i as int, path@.len() as int)),
        old(node)@.size() + link_view(sub).size() <= usize::MAX,
    ensures
        final(node).wf(),
        r is Ok <==> old(node)@.subtree(path@.subrange(i as int, path@.len() as int).push(side)) is Nil,
        r is Ok ==> final(node)@ == old(node)@.replace(path@.subrange(i as int, path@.len() as int).push(side), link_view(sub)),
        r is Ok ==> final(node)@.size() == old(node)@.size() + link_view(sub).size(),
        r is Err ==> final(node)@ == old(node)@ && r->Err_0 == (InsertErr { occupied: side }),
    decreases path@.len() - i,
{
    let ghost p = path@.subrange(i as int, path@.len() as int);
    let ghost q = path@.subrange(i + 1, path@.len() as int);
    let ghost t0 = node@;
    if i == path.len() {
        assert(p.push(side).drop_first() =~= Seq::<Side>::empty());
        proof { lemma_path_step(t0, p.push(side), link_view(sub)); }
        match side {
            Side::Left => node.set_lc(sub),
            Side::Right => node.set_rc(sub),
        }
    } else {
        assert(p.drop_first() =~= q);
        assert(p.push(side).drop_first() =~= q.push(side));
        assert(p.push(side)[0] == path@[i as int]);
        assert(p[0] == path@[i as int]);
        proof {
            lemma_path_step(t0, p, link_view(sub));
            lemma_path_step(t0, p.push(side), link_view(sub));
        }
        if path[i] == Side::Left {
            proof { lemma_link_some(node.lc.unwrap()); }
            let mut c = node.lc.take().unwrap();
            assert(c@ == t0.left());
            let r = graft_at(&mut c, path, i + 1, side, sub);
            let ghost c1 = c@;
            proof { lemma_height_le_size(c1); lemma_height_le_size(t0.right()); }
            proof { lemma_link_some(c); }
            node.lc = Some(c);
            assert(node@ == Tree::Node { left: Box::new(c1), data: t0->data, right: Box::new(t0.right()) });
            node.update_height();
            assert(node@ == Tree::Node { left: Box::new(c1), data: t0->data, right: Box::new(t0.right()) });
            r
        } else {
            proof { lemma_link_some(node.rc.unwrap()); }
            let mut c = node.rc.take().unwrap();
            assert(c@ == t0.right());
            let r = graft_at(&mut c, path, i + 1, side, sub);
            let ghost c1 = c@;
            proof { lemma_height_le_size(c1); lemma_height_le_size(t0.left()); }
            proof { lemma_link_some(c); }
            node.rc = Some(c);
            assert(node@ == Tree::Node { left: Box::new(t0.left()), data: t0->data, right: Box::new(c1) });
            node.update_height();
            assert(node@ == Tree::Node { left: Box::new(t0.left()), data: t0->data, right: Box::new(c1) });
            r
        }
    }
}

/// Takes out the subtree in the `side` slot of the node that `path[i..]` leads to from `node`.
fn detach_at<T>(node: &mut BinNode<T>, path: &Vec<Side>, i: usize, side: Side) -> (sub: Link<T>)
    requires
        old(node).wf(),
        i <= path@.len(),
        old(node)@.has_node(path@.subrange(i as int, path@.len() as int)),
        old(node)@.size() <= usize::MAX,
    ensures
        final(node).wf(),
        link_wf(sub),
        link_view(sub) == old(node)@.subtree(path@.subrange(i as int, path@.len() as int).push(side)),
        final(node)@ == old(node)@.replace(path@.subrange(i as int, path@.len() as int).push(side), Tree::Nil),
        final(node)@.size() + link_view(sub).size() == old(node)@.size(),
    decreases path@.len() - i,
{
    let ghost p = path@.subrange(i as int, path@.len() as int);
    let ghost q = path@.subrange(i + 1, path@.len() as int);
    let ghost t0 = node@;
    if i == path.len() {
        assert(p.push(side).drop_first() =~= Seq::<Side>::empty());
        proof { lemma_path_step(t0, p.push(side), Tree::Nil); }
        match side {
            Side::Left => node.take_lc(),
            Side::Right => node.take_rc(),
        }
    } else {
        assert(p.drop_first() =~= q);
        assert(p.push(side).drop_first() =~= q.push(side));
        assert(p.push(side)[0] == path@[i as int]);
        assert(p[0] == path@[i as int]);
        proof {
            lemma_path_step(t0, p, Tree::Nil);
            lemma_path_step(t0, p.push(side), Tree::Nil);
        }
        if path[i] == Side::Left {
            proof { lemma_link_some(node.lc.unwrap()); }
            let mut c = node.lc.take().unwrap();
            assert(c@ == t0.left());
            let sub = detach_at(&mut c, path, i + 1, side);
            let ghost c1 = c@;
            proof { lemma_height_le_size(c1); lemma_height_le_size(t0.right()); }
            proof { lemma_link_some(c); }
            node.lc = Some(c);
            assert(node@ == Tree::Node { left: Box::new(c1), data: t0->data, right: Box::new(t0.right()) });
            node.update_height();
            assert(node@ == Tree::Node { left: Box::new(c1), data: t0->data, right: Box::new(t0.right()) });
            sub
        } else {
            proof { lemma_link_some(node.rc.unwrap()); }
            let mut c = node.rc.take().unwrap();
            assert(c@ == t0.right());
            let sub = detach_at(&mut c, path, i + 1, side);
            let ghost c1 = c@;
            proof { lemma_height_le_size(c1); lemma_height_le_size(t0.left()); }
            proof { lemma_link_some(c); }
            node.rc = Some(c);
            assert(node@ == Tree::Node { left: Box::new(t0.left()), data: t0->data, right: Box::new(c1) });
            node.update_height();
            assert(node@ == Tree::Node { left: Box::new(t0.left()), data: t0->data, right: Box::new(c1) });
            sub
        }
    }
}

impl<T> BinTree<T> {
    /// Heights recorded right, and `size` counts the nodes.
    pub open(crate) spec fn wf(&self) -> bool {
        &&& link_wf(self.root)
        &&& self.size as nat == self@.size()
    }

    /// An empty tree.
    pub fn new() -> (t: BinTree<T>)
        ensures
            t.wf(),
            t@ == Tree::<T>::Nil,
    {
        BinTree { root: None, size: 0 }
    }

    /// The handle of the root, absent when the tree is empty.
    pub fn root(&self) -> (r: Option<NodePos>)
        ensures
            r is Some <==> self@ is Node,
            r is Some ==> r.unwrap()@ == Seq::<Side>::empty(),
    {
        if self.root.is_some() {
            Some(NodePos::root())
        } else {
            None
        }
    }

    pub fn size(&self) -> (r: usize)
        requires
            self.wf(),
        ensures
            r == self@.size(),
    {
        self.size
    }

    pub fn empty(&self) -> (r: bool)
        requires
            self.wf(),
        ensures
            r == (self@ is Nil),
    {
        self.size == 0
    }

    /// The in-order successor of `node`: the leftmost node of its right subtree when there is
    /// one, else the nearest ancestor that has `node` in its left subtree; absent when `node`
    /// holds the largest position in the order.
    pub fn succ(&self, node: &NodePos) -> (r: Option<NodePos>)
        requires
            self.wf(),
            self@.has_node(node@),
        ensures
            self@.subtree(node@).right() is Node ==> r is Some && self@.has_node(r->Some_0@)
                && self@.subtree(r->Some_0@).left() is Nil && exists|k: Seq<Side>|
                all_left(k) && r->Some_0@ == node@.push(Side::Right) + k,
            self@.subtree(node@).right() is Nil ==> (r is None <==> all_right(node@)),
            self@.subtree(node@).right() is Nil && r is Some ==> exists|k: Seq<Side>|
                all_right(k) && node@ == r->Some_0@.push(Side::Left) + k,
    {
        let n = self.node(node);
        if n.rc.is_some() {
            let mut q = node.child(Side::Right);
            proof {
                lemma_subtree_push(self@, node@, Side::Right);
                lemma_link_some(n.rc.unwrap());
            }
            let mut cur: &BinNode<T> = n.rc.as_ref().unwrap();
            let ghost k: Seq<Side> = Seq::empty();
            assert(q@ == node@.push(Side::Right) + k);
            while cur.lc.is_some()
                invariant
                    self.wf(),
                    cur.wf(),
                    cur@ == self@.subtree(q@),
                    all_left(k),
                    q@ == node@.push(Side::Right) + k,
                decreases cur@.size(),
            {
                proof {
                    lemma_subtree_push(self@, q@, Side::Left);
                    lemma_link_some(cur.lc.unwrap());
                    lemma_mk(cur@.left(), cur.data, cur@.right());
                }
                cur = cur.lc.as_ref().unwrap();
                q = q.child(Side::Left);
                proof {
                    k = k.push(Side::Left);
                }
                assert(q@ =~= node@.push(Side::Right) + k);
            }
            Some(q)
        } else {
            let len = node.steps.len();
            let mut j: usize = len;
            while j > 0 && node.steps[j - 1] == Side::Right
                invariant
                    j <= len == node@.len(),
                    all_right(node@.subrange(j as int, len as int)),
                decreases j,
            {
                assert(node@.subrange(j - 1, len as int) =~= seq![Side::Right] + node@.subrange(j as int, len as int));
                j = j - 1;
            }
            if j == 0 {
                assert(node@.subrange(0, len as int) =~= node@);
                return None;
            }
            let q = node.prefix(j - 1);
            assert(node@ =~= q@.push(Side::Left) + node@.subrange(j as int, len as int));
            proof {
                if all_right(node@) {
                    assert(node@[j - 1] == Side::Right);
                }
            }
            Some(q)
        }
    }

    /// The pre-order successor of `node`: its left child, else its right child, else the right
    /// child of the nearest ancestor that has `node` in its left subtree and has a right child;
    /// absent when `node` comes last in pre-order.
    pub fn next(&self, node: &NodePos) -> (r: Option<NodePos>)
        requires
            self.wf(),
            self@.has_node(node@),
        ensures
            self@.subtree(node@).left() is Node ==> r is Some && r->Some_0@ == node@.push(Side::Left),
            self@.subtree(node@).left() is Nil && self@.subtree(node@).right() is Node ==> r is Some
                && r->Some_0@ == node@.push(Side::Right),
            self@.subtree(node@).left() is Nil && self@.subtree(node@).right() is Nil ==> (r is None
                <==> (forall|j: int|
                0 <= j < node@.len() && node@[j] == Side::Left ==> #[trigger] self@.subtree(
                    node@.subrange(0, j),
                ).right() is Nil)),
            self@.subtree(node@).left() is Nil && self@.subtree(node@).right() is Nil && r is Some
                ==> exists|j: int|
                0 <= j < node@.len() && node@[j] == Side::Left && self@.subtree(node@.subrange(0, j)).right() is Node
                    && r->Some_0@ == node@.subrange(0, j).push(Side::Right) && forall|m: int|
                    j < m < node@.len() && node@[m] == Side::Left ==> #[trigger] self@.subtree(
                        node@.subrange(0, m),
                    ).right() is Nil,
    {
        let n = self.node(node);
        if n.lc.is_some() {
            return Some(node.child(Side::Left));
        }
        if n.rc.is_some() {
            return Some(node.child(Side::Right));
        }
        let len = node.steps.len();
        let mut j: usize = len;
        while j > 0
            invariant
                j <= len == node@.len(),
                self.wf(),
                self@.has_node(node@),
                self@.subtree(node@).left() is Nil,
                self@.subtree(node@).right() is Nil,
                forall|m: int|
                    j <= m < len && node@[m] == Side::Left ==> #[trigger] self@.subtree(node@.subrange(0, m)).right() is Nil,
            decreases j,
        {
            if node.steps[j - 1] == Side::Left {
                let q = node.prefix(j - 1);
                proof { lemma_prefix_has_node(self@, node@, j - 1); }
                if self.node(&q).rc.is_some() {
                    let r = q.child(Side::Right);
                    assert(self@.subtree(node@.subrange(0, j - 1)).right() is Node);
                    return Some(r);
                }
            }
            j = j - 1;
        }
        None
    }

    /// Exchanges the payloads of the nodes that `a` and `b` lead to; no link changes.
    pub fn swap_payload(&mut self, a: &NodePos, b: &NodePos)
        requires
            old(self).wf(),
            old(self)@.has_node(a@),
            old(self)@.has_node(b@),
        ensures
            final(self).wf(),
            final(self)@ == swapped(old(self)@, a@, b@),
    {
        assert(a.steps@.subrange(0, a.steps@.len() as int) =~= a@);
        assert(b.steps@.subrange(0, b.steps@.len() as int) =~= b@);
        let ghost t0 = self@;
        proof { lemma_link_some(self.root.unwrap()); }
        let mut root = self.root.take().unwrap();
        swap_at(&mut root, &a.steps, 0, &b.steps, 0);
        proof {
            lemma_link_some(root);
            lemma_set_data_shape(t0, a@, t0.subtree(b@)->data);
            lemma_set_data_shape(t0.set_data(a@, t0.subtree(b@)->data), b@, t0.subtree(a@)->data);
        }
        self.root = Some(root);
    }

    /// Makes `value` the sole node of an empty tree.
    pub fn insert_as_root(&mut self, value: T)
        requires
            old(self).wf(),
            old(self)@ is Nil,
        ensures
            final(self).wf(),
            final(self)@ == Tree::leaf(value),
    {
        let n = Box::new(BinNode::new(value));
        proof { lemma_link_some(n); }
        self.root = Some(n);
        self.size = 1;
    }

    /// The node that `node` leads to.
    pub fn node(&self, node: &NodePos) -> (r: &BinNode<T>)
        requires
            self.wf(),
            self@.has_node(node@),
        ensures
            r.wf(),
            r@ == self@.subtree(node@),
    {
        assert(node.steps@.subrange(0, node.steps@.len() as int) =~= node@);
        proof { lemma_link_some(self.root.unwrap()); }
        node_at(self.root.as_ref().unwrap(), &node.steps, 0)
    }

    /// The payload of the node that `node` leads to.
    pub fn get(&self, node: &NodePos) -> (r: &T)
        requires
            self.wf(),
            self@.has_node(node@),
        ensures
            *r == self@.subtree(node@)->data,
    {
        self.node(node).get()
    }

    /// Fills the empty `side` slot of `node` with `sub`.
    fn attach(&mut self, node: &NodePos, side: Side, sub: Link<T>) -> (r: Result<(), InsertErr>)
        requires
            old(self).wf(),
            link_wf(sub),
            old(self)@.has_node(node@),
            old(self)@.size() + link_view(sub).size() <= usize::MAX,
        ensures
            link_wf(final(self).root),
            final(self).size == old(self).size,
            r is Ok <==> old(self)@.subtree(node@.push(side)) is Nil,
            r is Ok ==> final(self)@ == old(self)@.replace(node@.push(side), link_view(sub)),
            r is Ok ==> final(self)@.size() == old(self)@.size() + link_view(sub).size(),
            r is Err ==> final(self)@ == old(self)@ && r->Err_0 == (InsertErr { occupied: side }),
    {
        assert(node.steps@.subrange(0, node.steps@.len() as int) =~= node@);
        proof { lemma_link_some(self.root.unwrap()); }
        let mut root = self.root.take().unwrap();
        let r = graft_at(&mut root, &node.steps, 0, side, sub);
        proof { lemma_link_some(root); }
        self.root = Some(root);
        r
    }

    /// Adds `value` as the left child of `node`; fails, changing nothing, when that slot is
    /// taken.
    pub fn insert_as_lc(&mut self, node: &NodePos, value: T) -> (r: Result<NodePos, InsertErr>)
        requires
            old(self).wf(),
            old(self)@.has_node(node@),
            old(self)@.size() < usize::MAX,
        ensures
            final(self).wf(),
            r is Ok <==> old(self)@.subtree(node@.push(Side::Left)) is Nil,
            r is Ok ==> final(self)@ == old(self)@.replace(node@.push(Side::Left), Tree::leaf(value)),
            r is Ok ==> r->Ok_0@ == node@.push(Side::Left),
            r is Err ==> final(self)@ == old(self)@ && r->Err_0 == (InsertErr { occupied: Side::Left }),
    {
        let leaf = Box::new(BinNode::new(value));
        proof {
            lemma_link_some(leaf);
            lemma_mk(Tree::<T>::Nil, value, Tree::<T>::Nil);
        }
        match self.attach(node, Side::Left, Some(leaf)) {
            Ok(()) => {
                self.size = self.size + 1;
                Ok(node.child(Side::Left))
            },
            Err(e) => Err(e),
        }
    }

    /// Adds `value` as the right child of `node`; fails, changing nothing, when that slot is
    /// taken.
    pub fn insert_as_rc(&mut self, node: &NodePos, value: T) -> (r: Result<NodePos, InsertErr>)
        requires
            old(self).wf(),
            old(self)@.has_node(node@),
            old(self)@.size() < usize::MAX,
        ensures
            final(self).wf(),
            r is Ok <==> old(self)@.subtree(node@.push(Side::Right)) is Nil,
            r is Ok ==> final(self)@ == old(self)@.replace(node@.push(Side::Right), Tree::leaf(value)),
            r is Ok ==> r->Ok_0@ == node@.push(Side::Right),
            r is Err ==> final(self)@ == old(self)@ && r->Err_0 == (InsertErr { occupied: Side::Right }),
    {
        let leaf = Box::new(BinNode::new(value));
        proof {
            lemma_link_some(leaf);
            lemma_mk(Tree::<T>::Nil, value, Tree::<T>::Nil);
        }
        match self.attach(node, Side::Right, Some(leaf)) {
            Ok(()) => {
                self.size = self.size + 1;
                Ok(node.child(Side::Right))
            },
            Err(e) => Err(e),
        }
    }

    /// Splices the whole of `subtree` into the empty left slot of `node` and hands back the
    /// handle of its root (absent for an empty subtree); fails, changing nothing here, when the
    /// slot is taken.
    pub fn attach_as_lc(&mut self, node: &NodePos, subtree: BinTree<T>) -> (r: Result<Option<NodePos>, InsertErr>)
        requires
            old(self).wf(),
            subtree.wf(),
            old(self)@.has_node(node@),
            old(self)@.size() + subtree@.size() <= usize::MAX,
        ensures
            final(self).wf(),
            r is Ok <==> old(self)@.subtree(node@.push(Side::Left)) is Nil,
            r is Ok ==> final(self)@ == old(self)@.replace(node@.push(Side::Left), subtree@),
            r is Ok ==> (r->Ok_0 is Some <==> subtree@ is Node),
            r is Ok && r->Ok_0 is Some ==> r->Ok_0->Some_0@ == node@.push(Side::Left),
            r is Err ==> final(self)@ == old(self)@ && r->Err_0 == (InsertErr { occupied: Side::Left }),
    {
        let n = subtree.size;
        let nonempty = subtree.root.is_some();
        match self.attach(node, Side::Left, subtree.root) {
            Ok(()) => {
                self.size = self.size + n;
                if nonempty {
                    Ok(Some(node.child(Side::Left)))
                } else {
                    Ok(None)
                }
            },
            Err(e) => Err(e),
        }
    }

    /// Splices the whole of `subtree` into the empty right slot of `node` and hands back the
    /// handle of its root (absent for an empty subtree); fails, changing nothing here, when the
    /// slot is taken.
    pub fn attach_as_rc(&mut self, node: &NodePos, subtree: BinTree<T>) -> (r: Result<Option<NodePos>, InsertErr>)
        requires
            old(self).wf(),
            subtree.wf(),
            old(self)@.has_node(node@),
            old(self)@.size() + subtree@.size() <= usize::MAX,
        ensures
            final(self).wf(),
            r is Ok <==> old(self)@.subtree(node@.push(Side::Right)) is Nil,
            r is Ok ==> final(self)@ == old(self)@.replace(node@.push(Side::Right), subtree@),
            r is Ok ==> (r->Ok_0 is Some <==> subtree@ is Node),
            r is Ok && r->Ok_0 is Some ==> r->Ok_0->Some_0@ == node@.push(Side::Right),
            r is Err ==> final(self)@ == old(self)@ && r->Err_0 == (InsertErr { occupied: Side::Right }),
    {
        let n = subtree.size;
        let nonempty = subtree.root.is_some();
        match self.attach(node, Side::Right, subtree.root) {
            Ok(()) => {
                self.size = self.size + n;
                if nonempty {
                    Ok(Some(node.child(Side::Right)))
                } else {
                    Ok(None)
                }
            },
            Err(e) => Err(e),
        }
    }

    /// Detaches the subtree rooted at `node` and hands it back whole.
    fn detach(&mut self, node: &NodePos) -> (sub: Link<T>)
        requires
            old(self).wf(),
            old(self)@.has_node(node@),
        ensures
            link_wf(final(self).root),
            final(self).size == old(self).size,
            link_wf(sub),
            link_view(sub) == old(self)@.subtree(node@),
            final(self)@ == old(self)@.replace(node@, Tree::Nil),
            final(self)@.size() + link_view(sub).size() == old(self)@.size(),
    {
        if node.steps.len() == 0 {
            proof { lemma_link_some(self.root.unwrap()); }
            assert(Tree::<T>::Nil.size() == 0);
            self.root.take()
        } else {
            let parent = node.parent().unwrap();
            let side = node.steps[node.steps.len() - 1];
            assert(parent@.push(side) =~= node@);
            proof {
                lemma_subtree_push(self@, parent@, side);
                lemma_link_some(self.root.unwrap());
            }
            assert(parent.steps@.subrange(0, parent.steps@.len() as int) =~= parent@);
            let mut root = self.root.take().unwrap();
            let sub = detach_at(&mut root, &parent.steps, 0, side);
            proof { lemma_link_some(root); }
            self.root = Some(root);
            sub
        }
    }

    /// Detaches the subtree rooted at `node`, reclaims all its nodes, and hands back the
    /// handle of its former parent (absent when `node` was the root).
    pub fn remove(&mut self, node: &NodePos) -> (r: Option<NodePos>)
        requires
            old(self).wf(),
            old(self)@.has_node(node@),
        ensures
            final(self).wf(),
            final(self)@ == old(self)@.replace(node@, Tree::Nil),
            final(self)@.size() == old(self)@.size() - old(self)@.subtree(node@).size(),
            node@.len() == 0 ==> r is None,
            node@.len() > 0 ==> r is Some && r->Some_0@ == node@.drop_last(),
    {
        let sub = self.detach(node);
        proof { lemma_height_le_size(link_view(sub)); }
        let n = BinNode::size_of(&sub);
        self.size = self.size - n;
        node.parent()
    }

    /// Detaches the subtree rooted at `node` without destroying it and hands it back as a
    /// tree of its own.
    pub fn secede(&mut self, node: &NodePos) -> (t: BinTree<T>)
        requires
            old(self).wf(),
            old(self)@.has_node(node@),
        ensures
            final(self).wf(),
            t.wf(),
            t@ == old(self)@.subtree(node@),
            final(self)@ == old(self)@.replace(node@, Tree::Nil),
            final(self)@.size() + t@.size() == old(self)@.size(),
    {
        let sub = self.detach(node);
        let n = BinNode::size_of(&sub);
        self.size = self.size - n;
        BinTree { root: sub, size: n }
    }

    /// A walk over the payloads, each node before its left subtree and that before its right
    /// subtree.
    pub fn iter(&self) -> (r: Iter<'_, T>)
        ensures
            r@ == self@.preorder(),
    {
        let mut stack: Vec<&BinNode<T>> = Vec::new();
        if let Some(n) = &self.root {
            stack.push(&**n);
            proof { lemma_link_some(*n); }
            assert(stack@.drop_last() =~= Seq::<&BinNode<T>>::empty());
            assert(pending(stack@.drop_last()) == Seq::<T>::empty());
            assert(stack@.last() == &**n);
            assert(pending(stack@) =~= self@.preorder());
        } else {
            assert(pending(stack@) =~= self@.preorder());
        }
        Iter { stack }
    }

    /// References to the payloads, each node before its left subtree and that before its
    /// right subtree.
    pub fn to_vec(&self) -> (r: Vec<&T>)
        ensures
            deref_seq(r@) == self@.preorder(),
    {
        let mut out: Vec<&T> = Vec::new();
        collect_preorder(&self.root, &mut out);
        assert(deref_seq(out@) =~= self@.preorder());
        out
    }
}

} // verus!
