use vstd::prelude::*;

verus! {

/// A node of a directory hierarchy: a leaf file, or a directory that owns
/// its children in listing order.
#[derive(Debug, PartialEq, Eq)]
pub enum Tree {
    File { name: String },
    Dir { name: String, children: Vec<Tree> },
}

impl Tree {
    /// The node's name as characters.
    pub open spec fn name_view(&self) -> Seq<char> {
        match self {
            Tree::File { name } => name@,
            Tree::Dir { name, .. } => name@,
        }
    }

    /// The node's children; a file has none.
    pub open spec fn children_view(&self) -> Seq<Tree> {
        match self {
            Tree::File { .. } => Seq::empty(),
            Tree::Dir { children, .. } => children@,
        }
    }

    /// The final path component this node stands for.
    pub fn name(&self) -> (r: &str)
        ensures
            r@ == self.name_view(),
    {
        match self {
            Tree::File { name } => name.as_str(),
            Tree::Dir { name, .. } => name.as_str(),
        }
    }
}

/// Number of nodes in `t`, `t` itself included.
pub open spec fn subtree_size(t: Tree) -> nat
    decreases t, t.children_view().len() + 1,
{
    1 + children_size(t, 0)
}

/// Number of nodes in the subtrees of `t`'s children from index `i` on.
pub open spec fn children_size(t: Tree, i: nat) -> nat
    decreases t, t.children_view().len() - i,
{
    match t {
        Tree::File { .. } => 0,
        Tree::Dir { children, .. } => if i < children.len() {
            subtree_size(children[i as int]) + children_size(t, i + 1)
        } else {
            0
        },
    }
}

/// Number of entries below the root of `t`.
pub open spec fn entry_count(t: Tree) -> nat {
    (subtree_size(t) - 1) as nat
}

} // verus!
