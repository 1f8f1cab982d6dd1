use vstd::prelude::*;

verus! {

/// A tree of the textual syntax, as far as a net can hold it.
#[derive(Debug, PartialEq, Eq)]
pub enum Tree {
    /// The eraser.
    Era,
    /// A binary constructor with its label and its two children.
    Ctr { lab: u16, p1: Box<Tree>, p2: Box<Tree> },
    /// An occurrence of a variable.
    Var(String),
    /// Any form of the syntax that a net cannot hold.
    Other,
}

/// The mathematical content of a [`Tree`]: the same shape, with names as sequences
/// of characters.
pub enum TreeView {
    Era,
    Ctr { lab: u16, p1: Box<TreeView>, p2: Box<TreeView> },
    Var(Seq<char>),
    Other,
}

impl View for Tree {
    type V = TreeView;

    open spec fn view(&self) -> TreeView
        decreases self,
    {
        match self {
            Tree::Era => TreeView::Era,
            Tree::Ctr { lab, p1, p2 } => TreeView::Ctr {
                lab: *lab,
                p1: Box::new((**p1).view()),
                p2: Box::new((**p2).view()),
            },
            Tree::Var(name) => TreeView::Var(name@),
            Tree::Other => TreeView::Other,
        }
    }
}

impl Tree {
    /// A copy of the tree.
    pub fn duplicate(&self) -> (t: Tree)
        ensures
            t@ == self@,
        decreases self,
    {
        match self {
            Tree::Era => Tree::Era,
            Tree::Ctr { lab, p1, p2 } => Tree::Ctr {
                lab: *lab,
                p1: Box::new(p1.duplicate()),
                p2: Box::new(p2.duplicate()),
            },
            Tree::Var(name) => Tree::Var(name.clone()),
            Tree::Other => Tree::Other,
        }
    }
}

impl Clone for Tree {
    fn clone(&self) -> (t: Tree)
        ensures
            t@ == self@,
    {
        self.duplicate()
    }
}

/// The contents of a sequence of trees, one by one.
pub open spec fn views(trees: Seq<Tree>) -> Seq<TreeView> {
    Seq::new(trees.len(), |i: int| trees[i]@)
}

impl TreeView {
    /// The number of erasers and constructors in the tree: the nodes that a net
    /// allocates for it.
    pub open spec fn node_count(self) -> nat
        decreases self,
    {
        match self {
            TreeView::Era => 1,
            TreeView::Ctr { lab, p1, p2 } => 1 + p1.node_count() + p2.node_count(),
            TreeView::Var(_) => 0,
            TreeView::Other => 0,
        }
    }

    /// How often the variable `name` occurs in the tree.
    pub open spec fn occurrences(self, name: Seq<char>) -> nat
        decreases self,
    {
        match self {
            TreeView::Era => 0,
            TreeView::Ctr { lab, p1, p2 } => p1.occurrences(name) + p2.occurrences(name),
            TreeView::Var(v) => if v == name {
                1
            } else {
                0
            },
            TreeView::Other => 0,
        }
    }

    /// Whether the tree is made of erasers, constructors and variables alone.
    pub open spec fn supported(self) -> bool
        decreases self,
    {
        match self {
            TreeView::Era => true,
            TreeView::Ctr { lab, p1, p2 } => p1.supported() && p2.supported(),
            TreeView::Var(_) => true,
            TreeView::Other => false,
        }
    }
}

} // verus!
