use crate::construct::{attach, build, build_prefix, fresh_agent, BuildState, Wire};
use crate::error::Error;
use crate::inet::{AuxPort, Dir};
use crate::tree::TreeView;
use vstd::prelude::*;

verus! {

impl TreeView {
    /// The tree with every variable `x` renamed to `rho[x]`.
    pub open spec fn renamed(self, rho: Map<Seq<char>, Seq<char>>) -> TreeView
        decreases self,
    {
        match self {
            TreeView::Era => TreeView::Era,
            TreeView::Ctr { lab, p1, p2 } => TreeView::Ctr {
                lab,
                p1: Box::new(p1.renamed(rho)),
                p2: Box::new(p2.renamed(rho)),
            },
            TreeView::Var(x) => TreeView::Var(rho[x]),
            TreeView::Other => TreeView::Other,
        }
    }

    /// Whether `rho` has a name for every variable of the tree.
    pub open spec fn named_by(self, rho: Map<Seq<char>, Seq<char>>) -> bool
        decreases self,
    {
        match self {
            TreeView::Ctr { lab, p1, p2 } => p1.named_by(rho) && p2.named_by(rho),
            TreeView::Var(x) => rho.contains_key(x),
            _ => true,
        }
    }
}

/// Whether `rho` gives different names to different variables.
pub open spec fn injective(rho: Map<Seq<char>, Seq<char>>) -> bool {
    forall|x: Seq<char>, y: Seq<char>|
        rho.contains_key(x) && rho.contains_key(y) && #[trigger] rho[x] == #[trigger] rho[y] ==> x
            == y
}

/// Whether `larger` has every name of `rho`.
pub open spec fn extends(larger: Map<Seq<char>, Seq<char>>, rho: Map<Seq<char>, Seq<char>>) -> bool {
    forall|x: Seq<char>| #[trigger]
        rho.contains_key(x) ==> larger.contains_key(x) && larger[x] == rho[x]
}

/// The trees with every variable `x` renamed to `rho[x]`.
pub open spec fn renamed_all(trees: Seq<TreeView>, rho: Map<Seq<char>, Seq<char>>) -> Seq<TreeView> {
    Seq::new(trees.len(), |i: int| trees[i].renamed(rho))
}

/// Whether `second` records under `rho[x]` what `first` records under `x`, for
/// every `x` that `rho` names.
pub open spec fn renamed_table(
    first: Map<Seq<char>, Wire>,
    second: Map<Seq<char>, Wire>,
    rho: Map<Seq<char>, Seq<char>>,
) -> bool {
    forall|x: Seq<char>| #[trigger]
        rho.contains_key(x) ==> (second.contains_key(rho[x]) <==> first.contains_key(x)) && (
        first.contains_key(x) ==> second[rho[x]] == first[x])
}

/// Renaming with more names leaves a tree as it is renamed with the names that it
/// has.
pub proof fn lemma_renamed_extends(
    tree: TreeView,
    rho: Map<Seq<char>, Seq<char>>,
    larger: Map<Seq<char>, Seq<char>>,
)
    requires
        tree.named_by(rho),
        extends(larger, rho),
    ensures
        tree.renamed(larger) == tree.renamed(rho),
        tree.named_by(larger),
    decreases tree,
{
    match tree {
        TreeView::Ctr { lab, p1, p2 } => {
            lemma_renamed_extends(*p1, rho, larger);
            lemma_renamed_extends(*p2, rho, larger);
        },
        _ => {},
    }
}

/// Whether two outcomes of attaching agree: the same error, or the same net with
/// the records of the second renamed from those of the first.
pub open spec fn same_attached(
    first: Result<BuildState, Error>,
    second: Result<BuildState, Error>,
    rho: Map<Seq<char>, Seq<char>>,
) -> bool {
    match first {
        Ok(a) => second is Ok && second->Ok_0.net == a.net && renamed_table(
            a.wires,
            second->Ok_0.wires,
            rho,
        ),
        Err(e) => second == Err::<BuildState, Error>(e),
    }
}

/// Attaching a tree and attaching it with its variables renamed, one name for one,
/// come to the same.
pub proof fn lemma_attach_renamed(
    st1: BuildState,
    st2: BuildState,
    tree: TreeView,
    parent: AuxPort,
    rho: Map<Seq<char>, Seq<char>>,
)
    requires
        st1.net == st2.net,
        renamed_table(st1.wires, st2.wires, rho),
        injective(rho),
        tree.named_by(rho),
    ensures
        same_attached(attach(st1, tree, parent), attach(st2, tree.renamed(rho), parent), rho),
    decreases tree,
{
    match tree {
        TreeView::Era => {},
        TreeView::Ctr { lab, p1, p2 } => {
            let id = st1.net.nodes.len() as usize;
            let left = AuxPort::Node { dir: Dir::Left, node: id };
            let right = AuxPort::Node { dir: Dir::Right, node: id };
            let a0 = st1.with_node(fresh_agent(lab, parent), parent);
            let b0 = st2.with_node(fresh_agent(lab, parent), parent);
            lemma_attach_renamed(a0, b0, *p1, left, rho);
            if let Ok(a1) = attach(a0, *p1, left) {
                let b1 = attach(b0, p1.renamed(rho), left)->Ok_0;
                lemma_attach_renamed(a1, b1, *p2, right, rho);
            }
        },
        TreeView::Var(x) => {
            let y = rho[x];
            assert(st2.wires.contains_key(y) <==> st1.wires.contains_key(x));
            if let Ok(a) = attach(st1, tree, parent) {
                let b = attach(st2, tree.renamed(rho), parent)->Ok_0;
                assert forall|z: Seq<char>| #[trigger] rho.contains_key(z) implies (
                b.wires.contains_key(rho[z]) <==> a.wires.contains_key(z)) && (a.wires.contains_key(
                    z,
                ) ==> b.wires[rho[z]] == a.wires[z]) by {
                    if z != x {
                        assert(rho[z] != rho[x]);
                    }
                }
            }
        },
        TreeView::Other => {},
    }
}

/// Building from a prefix of the trees and from the same prefix with the variables
/// renamed, one name for one, come to the same.
pub proof fn lemma_build_prefix_renamed(trees: Seq<TreeView>, rho: Map<Seq<char>, Seq<char>>, n: nat)
    requires
        injective(rho),
        n <= trees.len(),
        forall|i: int| 0 <= i < trees.len() ==> (#[trigger] trees[i]).named_by(rho),
    ensures
        same_attached(build_prefix(trees, n), build_prefix(renamed_all(trees, rho), n), rho),
    decreases n,
{
    if n > 0 {
        let m = (n - 1) as nat;
        lemma_build_prefix_renamed(trees, rho, m);
        if let Ok(a) = build_prefix(trees, m) {
            let b = build_prefix(renamed_all(trees, rho), m)->Ok_0;
            assert(trees[n - 1].named_by(rho));
            lemma_attach_renamed(
                a.with_free_port(),
                b.with_free_port(),
                trees[n - 1],
                AuxPort::Free(m as usize),
                rho,
            );
        }
    }
}

/// Trees build the same net as the trees with the variables renamed, one name for
/// one: a net keeps the wiring and not the names.
pub proof fn lemma_build_renamed(trees: Seq<TreeView>, rho: Map<Seq<char>, Seq<char>>)
    requires
        injective(rho),
        forall|i: int| 0 <= i < trees.len() ==> (#[trigger] trees[i]).named_by(rho),
    ensures
        build(renamed_all(trees, rho)) == build(trees),
{
    lemma_build_prefix_renamed(trees, rho, trees.len());
}

} // verus!
