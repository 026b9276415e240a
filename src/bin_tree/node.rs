use vstd::prelude::*;
use super::shape::{Side, Tree, lemma_height_le_size};

verus! {

/// The failure of an attempt to fill a child slot that already holds a node: the slot was
/// occupied.
#[derive(Clone, Copy, Debug, PartialEq, Eq, Structural)]
pub struct InsertErr {
    pub occupied: Side,
}

/// A child slot: empty, or the sole owner of the subtree below it.
pub type Link<T> = Option<Box<BinNode<T>>>;

/// A tree node: a payload, two owned child slots, and the height of the subtree it roots.
pub struct BinNode<T> {
    pub data: T,
    pub lc: Link<T>,
    pub rc: Link<T>,
    pub height: usize,
}

/// The tree that a slot holds.
pub open spec fn link_view<T>(l: Link<T>) -> Tree<T>
    decreases l,
{
    match l {
        None => Tree::Nil,
        Some(n) => Tree::Node {
            left: Box::new(link_view(n.lc)),
            data: n.data,
            right: Box::new(link_view(n.rc)),
        },
    }
}

/// Every node below the slot records the height of its own subtree.
pub open spec fn link_wf<T>(l: Link<T>) -> bool
    decreases l,
{
    match l {
        None => true,
        Some(n) => {
            &&& link_wf(n.lc)
            &&& link_wf(n.rc)
            &&& n.height as nat == link_view(l).height()
        },
    }
}

/// A filled slot denotes its node's tree, and is well formed exactly when the node is.
pub broadcast proof fn lemma_link_some<T>(n: Box<BinNode<T>>)
    ensures
        #[trigger] link_view(Some(n)) == n@,
        link_wf(Some(n)) <==> n.wf(),
{
}

/// The payloads that a sequence of references points to.
pub open spec fn deref_seq<T>(s: Seq<&T>) -> Seq<T> {
    s.map_values(|r: &T| *r)
}

/// Appends references to the payloads below the slot, root first, then the left subtree, then
/// the right one.
pub fn collect_preorder<'a, T>(l: &'a Link<T>, out: &mut Vec<&'a T>)
    ensures
        deref_seq(final(out)@) == deref_seq(old(out)@) + link_view(*l).preorder(),
    decreases l,
{
    let ghost o0 = deref_seq(out@);
    if let Some(n) = l {
        let ghost s0 = out@;
        out.push(&n.data);
        assert(deref_seq(out@) =~= deref_seq(s0).push(n.data));
        collect_preorder(&n.lc, out);
        collect_preorder(&n.rc, out);
        assert(deref_seq(out@) =~= o0 + link_view(*l).preorder());
    } else {
        assert(deref_seq(out@) =~= o0 + link_view(*l).preorder());
    }
}

/// Appends references to the payloads below the slot, in order: left subtree, node, right subtree.
pub fn collect_inorder<'a, T>(l: &'a Link<T>, out: &mut Vec<&'a T>)
    ensures
        deref_seq(final(out)@) == deref_seq(old(out)@) + link_view(*l).inorder(),
    decreases l,
{
    let ghost o0 = deref_seq(out@);
    if let Some(n) = l {
        collect_inorder(&n.lc, out);
        let ghost s1 = out@;
        out.push(&n.data);
        assert(deref_seq(out@) =~= deref_seq(s1).push(n.data));
        collect_inorder(&n.rc, out);
        assert(deref_seq(out@) =~= o0 + link_view(*l).inorder());
    } else {
        assert(deref_seq(out@) =~= o0 + link_view(*l).inorder());
    }
}

/// The structural queries of a tree node, stated over the tree it roots.
pub trait Node<T>: Sized {
    spec fn shape(&self) -> Tree<T>;

    /// The payload.
    fn get(&self) -> (r: &T)
        ensures
            *r == self.shape()->data;

    fn has_lc(&self) -> (r: bool)
        ensures
            r == (self.shape().left() is Node);

    fn has_rc(&self) -> (r: bool)
        ensures
            r == (self.shape().right() is Node);

    fn is_leaf(&self) -> (r: bool)
        ensures
            r == (self.shape().left() is Nil && self.shape().right() is Nil);

    fn has_double_branch(&self) -> (r: bool)
        ensures
            r == (self.shape().left() is Node && self.shape().right() is Node);
}

impl<T> Node<T> for BinNode<T> {
    open spec fn shape(&self) -> Tree<T> {
        self@
    }

    fn get(&self) -> (r: &T) {
        &self.data
    }

    fn has_lc(&self) -> (r: bool) {
        self.lc.is_some()
    }

    fn has_rc(&self) -> (r: bool) {
        self.rc.is_some()
    }

    fn is_leaf(&self) -> (r: bool) {
        !self.has_lc() && !self.has_rc()
    }

    fn has_double_branch(&self) -> (r: bool) {
        self.has_lc() && self.has_rc()
    }
}

impl<T> View for BinNode<T> {
    type V = Tree<T>;

    open spec fn view(&self) -> Tree<T> {
        Tree::Node { left: Box::new(link_view(self.lc)), data: self.data, right: Box::new(link_view(self.rc)) }
    }
}

impl<T> BinNode<T> {
    pub open spec fn wf(self) -> bool {
        &&& link_wf(self.lc)
        &&& link_wf(self.rc)
        &&& self.height as nat == self@.height()
    }

    pub open spec fn left_tree(self) -> Tree<T> {
        link_view(self.lc)
    }

    pub open spec fn right_tree(self) -> Tree<T> {
        link_view(self.rc)
    }

    /// A node with no children.
    pub fn new(data: T) -> (n: BinNode<T>)
        ensures
            n.wf(),
            n@ == Tree::leaf(data),
    {
        let n = BinNode { data, lc: None, rc: None, height: 1 };
        assert(link_view(n.lc) == Tree::<T>::Nil && link_view(n.rc) == Tree::<T>::Nil);
        assert(Tree::<T>::Nil.height() == 0);
        assert(link_wf(n.lc) && link_wf(n.rc));
        n
    }

    pub fn height(&self) -> (r: usize)
        requires
            self.wf(),
        ensures
            r == self@.height(),
    {
        self.height
    }

    /// Height of the subtree a slot holds (0 when empty).
    pub fn stature(l: &Link<T>) -> (r: usize)
        requires
            link_wf(*l),
        ensures
            r == link_view(*l).height(),
    {
        match l {
            None => 0,
            Some(n) => n.height,
        }
    }

    /// Recomputes the recorded height from the children's: one more than the taller.
    pub fn update_height(&mut self) -> (r: usize)
        requires
            link_wf(old(self).lc),
            link_wf(old(self).rc),
            link_view(old(self).lc).height() < usize::MAX,
            link_view(old(self).rc).height() < usize::MAX,
        ensures
            final(self).wf(),
            final(self)@ == old(self)@,
            final(self).lc == old(self).lc,
            final(self).rc == old(self).rc,
            r == final(self)@.height(),
    {
        let l = Self::stature(&self.lc);
        let r = Self::stature(&self.rc);
        let h = if l >= r { l } else { r };
        self.height = h + 1;
        self.height
    }

    /// Number of nodes in the subtree a slot holds.
    pub fn size_of(l: &Link<T>) -> (r: usize)
        requires
            link_view(*l).size() <= usize::MAX,
        ensures
            r == link_view(*l).size(),
        decreases l,
    {
        match l {
            None => 0,
            Some(n) => {
                let a = Self::size_of(&n.lc);
                let b = Self::size_of(&n.rc);
                a + 1 + b
            },
        }
    }

    /// Puts `sub` into the empty left slot; fails, changing nothing, when the slot is taken.
    pub fn set_lc(&mut self, sub: Link<T>) -> (r: Result<(), InsertErr>)
        requires
            old(self).wf(),
            link_wf(sub),
            old(self)@.size() + link_view(sub).size() <= usize::MAX,
        ensures
            final(self).wf(),
            r is Ok <==> old(self).lc is None,
            r is Ok ==> final(self)@ == (Tree::Node {
                left: Box::new(link_view(sub)),
                data: old(self).data,
                right: Box::new(old(self)@.right()),
            }),
            r is Err ==> *final(self) == *old(self) && r->Err_0 == (InsertErr { occupied: Side::Left }),
            final(self).data == old(self).data,
    {
        if self.lc.is_some() {
            return Err(InsertErr { occupied: Side::Left });
        }
        proof { lemma_height_le_size(link_view(sub)); lemma_height_le_size(self@); }
        self.lc = sub;
        self.update_height();
        Ok(())
    }

    /// Puts `sub` into the empty right slot; fails, changing nothing, when the slot is taken.
    pub fn set_rc(&mut self, sub: Link<T>) -> (r: Result<(), InsertErr>)
        requires
            old(self).wf(),
            link_wf(sub),
            old(self)@.size() + link_view(sub).size() <= usize::MAX,
        ensures
            final(self).wf(),
            r is Ok <==> old(self).rc is None,
            r is Ok ==> final(self)@ == (Tree::Node {
                left: Box::new(old(self)@.left()),
                data: old(self).data,
                right: Box::new(link_view(sub)),
            }),
            r is Err ==> *final(self) == *old(self) && r->Err_0 == (InsertErr { occupied: Side::Right }),
            final(self).data == old(self).data,
    {
        if self.rc.is_some() {
            return Err(InsertErr { occupied: Side::Right });
        }
        proof { lemma_height_le_size(link_view(sub)); lemma_height_le_size(self@); }
        self.rc = sub;
        self.update_height();
        Ok(())
    }

    /// Detaches the left subtree and hands it over whole.
    pub fn take_lc(&mut self) -> (sub: Link<T>)
        requires
            old(self).wf(),
        ensures
            final(self).wf(),
            link_wf(sub),
            link_view(sub) == old(self)@.left(),
            final(self)@ == (Tree::Node {
                left: Box::new(Tree::Nil),
                data: old(self).data,
                right: Box::new(old(self)@.right()),
            }),
            final(self).data == old(self).data,
    {
        let sub = self.lc.take();
        self.update_height();
        sub
    }

    /// Detaches the right subtree and hands it over whole.
    pub fn take_rc(&mut self) -> (sub: Link<T>)
        requires
            old(self).wf(),
        ensures
            final(self).wf(),
            link_wf(sub),
            link_view(sub) == old(self)@.right(),
            final(self)@ == (Tree::Node {
                left: Box::new(old(self)@.left()),
                data: old(self).data,
                right: Box::new(Tree::Nil),
            }),
            final(self).data == old(self).data,
    {
        let sub = self.rc.take();
        self.update_height();
        sub
    }
}

} // verus!
