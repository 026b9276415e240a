use vstd::prelude::*;

verus! {

/// One step from a node down to one of its two child slots.
#[derive(Clone, Copy, Debug, PartialEq, Eq, Structural)]
pub enum Side {
    Left,
    Right,
}

/// The mathematical value of a binary tree: what a linked structure of nodes denotes.
pub enum Tree<T> {
    Nil,
    Node { left: Box<Tree<T>>, data: T, right: Box<Tree<T>> },
}

pub open spec fn max_nat(a: nat, b: nat) -> nat {
    if a >= b {
        a
    } else {
        b
    }
}

/// The tree with root payload `d` over the subtrees `l` and `r`.
pub open spec fn mk<T>(l: Tree<T>, d: T, r: Tree<T>) -> Tree<T> {
    Tree::Node { left: Box::new(l), data: d, right: Box::new(r) }
}

impl<T> Tree<T> {
    pub open spec fn leaf(data: T) -> Tree<T> {
        Tree::Node { left: Box::new(Tree::Nil), data, right: Box::new(Tree::Nil) }
    }

    /// Number of nodes.
    pub open spec fn size(self) -> nat
        decreases self,
    {
        match self {
            Tree::Nil => 0,
            Tree::Node { left, right, .. } => left.size() + 1 + right.size(),
        }
    }

    /// Number of nodes on the longest downward path (a leaf has height 1).
    pub open spec fn height(self) -> nat
        decreases self,
    {
        match self {
            Tree::Nil => 0,
            Tree::Node { left, right, .. } => 1 + max_nat(left.height(), right.height()),
        }
    }

    pub open spec fn inorder(self) -> Seq<T>
        decreases self,
    {
        match self {
            Tree::Nil => Seq::empty(),
            Tree::Node { left, data, right } => left.inorder().push(data) + right.inorder(),
        }
    }

    pub open spec fn preorder(self) -> Seq<T>
        decreases self,
    {
        match self {
            Tree::Nil => Seq::empty(),
            Tree::Node { left, data, right } => seq![data] + left.preorder() + right.preorder(),
        }
    }

    /// AVL balance: at every node the heights of the two subtrees differ by at most one.
    pub open spec fn is_balanced(self) -> bool
        decreases self,
    {
        match self {
            Tree::Nil => true,
            Tree::Node { left, right, .. } => {
                &&& left.is_balanced()
                &&& right.is_balanced()
                &&& left.height() <= right.height() + 1
                &&& right.height() <= left.height() + 1
            },
        }
    }

    /// The subtree reached by following `p` from the root (`Nil` once the path leaves the tree).
    pub open spec fn subtree(self, p: Seq<Side>) -> Tree<T>
        decreases p.len(),
    {
        if p.len() == 0 {
            self
        } else {
            match self {
                Tree::Nil => Tree::Nil,
                Tree::Node { left, right, .. } => match p[0] {
                    Side::Left => left.subtree(p.drop_first()),
                    Side::Right => right.subtree(p.drop_first()),
                },
            }
        }
    }

    /// Whether `p` leads to a node.
    pub open spec fn has_node(self, p: Seq<Side>) -> bool {
        self.subtree(p) is Node
    }

    /// The tree with the subtree at `p` replaced by `t`.
    pub open spec fn replace(self, p: Seq<Side>, t: Tree<T>) -> Tree<T>
        decreases p.len(),
    {
        if p.len() == 0 {
            t
        } else {
            match self {
                Tree::Nil => Tree::Nil,
                Tree::Node { left, data, right } => match p[0] {
                    Side::Left => Tree::Node {
                        left: Box::new(left.replace(p.drop_first(), t)),
                        data,
                        right,
                    },
                    Side::Right => Tree::Node {
                        left,
                        data,
                        right: Box::new(right.replace(p.drop_first(), t)),
                    },
                },
            }
        }
    }

    /// The tree with the payload of the node at `p` replaced by `v`, links untouched.
    pub open spec fn set_data(self, p: Seq<Side>, v: T) -> Tree<T>
        decreases p.len(),
    {
        match self {
            Tree::Nil => Tree::Nil,
            Tree::Node { left, data, right } => if p.len() == 0 {
                Tree::Node { left, data: v, right }
            } else {
                match p[0] {
                    Side::Left => Tree::Node {
                        left: Box::new(left.set_data(p.drop_first(), v)),
                        data,
                        right,
                    },
                    Side::Right => Tree::Node {
                        left,
                        data,
                        right: Box::new(right.set_data(p.drop_first(), v)),
                    },
                }
            },
        }
    }

    /// The tree without its leftmost node, whose right subtree takes its place.
    pub open spec fn without_leftmost(self) -> Tree<T>
        decreases self,
    {
        match self {
            Tree::Nil => Tree::Nil,
            Tree::Node { left, data, right } => if *left is Nil {
                *right
            } else {
                Tree::Node { left: Box::new(left.without_leftmost()), data, right }
            },
        }
    }

    pub open spec fn left(self) -> Tree<T> {
        match self {
            Tree::Nil => Tree::Nil,
            Tree::Node { left, .. } => *left,
        }
    }

    pub open spec fn right(self) -> Tree<T> {
        match self {
            Tree::Nil => Tree::Nil,
            Tree::Node { right, .. } => *right,
        }
    }
}

/// One step of a path: into the left or right subtree.
pub proof fn lemma_path_step<T>(t: Tree<T>, p: Seq<Side>, x: Tree<T>)
    requires
        p.len() > 0,
        t is Node,
    ensures
        p[0] == Side::Left ==> t.subtree(p) == t.left().subtree(p.drop_first()),
        p[0] == Side::Right ==> t.subtree(p) == t.right().subtree(p.drop_first()),
        p[0] == Side::Left ==> t.replace(p, x) == (Tree::Node {
            left: Box::new(t.left().replace(p.drop_first(), x)),
            data: t->data,
            right: Box::new(t.right()),
        }),
        p[0] == Side::Right ==> t.replace(p, x) == (Tree::Node {
            left: Box::new(t.left()),
            data: t->data,
            right: Box::new(t.right().replace(p.drop_first(), x)),
        }),
{
}

/// A path that starts with one step `s`, as seen from the root and from the child.
pub proof fn lemma_path_cons<T>(t: Tree<T>, s: Side, p: Seq<Side>, x: Tree<T>)
    requires
        t is Node,
    ensures
        s == Side::Left ==> t.subtree(seq![s] + p) == t.left().subtree(p),
        s == Side::Right ==> t.subtree(seq![s] + p) == t.right().subtree(p),
        s == Side::Left ==> t.replace(seq![s] + p, x) == mk(t.left().replace(p, x), t->data, t.right()),
        s == Side::Right ==> t.replace(seq![s] + p, x) == mk(t.left(), t->data, t.right().replace(p, x)),
        p.len() > 0 ==> (seq![s] + p).drop_last() == seq![s] + p.drop_last(),
        p.len() == 0 ==> (seq![s] + p).drop_last() == Seq::<Side>::empty(),
        t.has_node(Seq::<Side>::empty()),
        (seq![s] + p).len() > 0,
{
    let q = seq![s] + p;
    assert(q.drop_first() =~= p);
    assert(q[0] == s);
    lemma_path_step(t, q, x);
    if p.len() > 0 {
        assert(q.drop_last() =~= seq![s] + p.drop_last());
    } else {
        assert(q.drop_last() =~= Seq::<Side>::empty());
    }
}

/// The measures of a tree in terms of its root's parts.
pub proof fn lemma_mk<T>(l: Tree<T>, d: T, r: Tree<T>)
    ensures
        mk(l, d, r).size() == l.size() + 1 + r.size(),
        mk(l, d, r).height() == 1 + max_nat(l.height(), r.height()),
        mk(l, d, r).inorder() == l.inorder().push(d) + r.inorder(),
        mk(l, d, r).preorder() == seq![d] + l.preorder() + r.preorder(),
        mk(l, d, r).is_balanced() <==> (l.is_balanced() && r.is_balanced() && l.height() <= r.height() + 1
            && r.height() <= l.height() + 1),
        mk(l, d, r).left() == l,
        mk(l, d, r).right() == r,
{
}

/// The subtree one step below the end of a path.
pub proof fn lemma_subtree_push<T>(t: Tree<T>, p: Seq<Side>, s: Side)
    ensures
        t.subtree(p.push(s)) == (match s {
            Side::Left => t.subtree(p).left(),
            Side::Right => t.subtree(p).right(),
        }),
    decreases p.len(),
{
    if p.len() > 0 {
        assert(p.push(s).drop_first() =~= p.drop_first().push(s));
        assert(p.push(s)[0] == p[0]);
        match t {
            Tree::Nil => {},
            Tree::Node { left, right, .. } => {
                lemma_subtree_push(*left, p.drop_first(), s);
                lemma_subtree_push(*right, p.drop_first(), s);
            },
        }
    } else {
        assert(p.push(s).drop_first() =~= Seq::<Side>::empty());
        assert(p.push(s)[0] == s);
        match t {
            Tree::Nil => {},
            Tree::Node { left, right, .. } => {
                assert(left.subtree(Seq::<Side>::empty()) == *left);
                assert(right.subtree(Seq::<Side>::empty()) == *right);
            },
        }
    }
}

/// Every prefix of a path that leads to a node leads to a node.
pub proof fn lemma_prefix_has_node<T>(t: Tree<T>, p: Seq<Side>, m: int)
    requires
        0 <= m <= p.len(),
        t.has_node(p),
    ensures
        t.has_node(p.subrange(0, m)),
    decreases p.len() - m,
{
    if m < p.len() {
        lemma_prefix_has_node(t, p, m + 1);
        let q = p.subrange(0, m);
        assert(p.subrange(0, m + 1) =~= q.push(p[m]));
        lemma_subtree_push(t, q, p[m]);
    } else {
        assert(p.subrange(0, m) =~= p);
    }
}

/// Changing a payload keeps the shape and its measures.
pub proof fn lemma_set_data_shape<T>(t: Tree<T>, p: Seq<Side>, v: T)
    ensures
        t.set_data(p, v).height() == t.height(),
        t.set_data(p, v).size() == t.size(),
        t.set_data(p, v) is Node <==> t is Node,
    decreases p.len(),
{
    match t {
        Tree::Nil => {},
        Tree::Node { left, data, right } => {
            if p.len() > 0 {
                lemma_set_data_shape(*left, p.drop_first(), v);
                lemma_set_data_shape(*right, p.drop_first(), v);
            }
        },
    }
}

pub proof fn lemma_height_le_size<T>(t: Tree<T>)
    ensures
        t.height() <= t.size(),
        t.inorder().len() == t.size(),
        t.preorder().len() == t.size(),
    decreases t,
{
    match t {
        Tree::Nil => {},
        Tree::Node { left, right, .. } => {
            lemma_height_le_size(*left);
            lemma_height_le_size(*right);
        },
    }
}

} // verus!
