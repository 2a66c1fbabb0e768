//! Plain nodes: a branch holds a key and nothing else.

use vstd::prelude::*;
use crate::shape::{SequenceTree, TreeAlgebra, TreeCoalgebra, TreeF};
use crate::zipper::{turns, Direction, Location, TreeZipperStep};

verus! {

/// A binary tree whose branches carry a key of type `A`.
#[derive(Debug)]
pub enum TreeNode<A> {
    Empty,
    Branch { val: A, left: Box<TreeNode<A>>, right: Box<TreeNode<A>> },
}

impl<A> TreeNode<A> {
    /// The keys of the tree, left to right.
    pub open spec fn keys(self) -> Seq<A>
        decreases self,
    {
        match self {
            TreeNode::Empty => Seq::empty(),
            TreeNode::Branch { val, left, right } => left.keys() + seq![val] + right.keys(),
        }
    }
}

impl<A> TreeAlgebra<A> for TreeNode<A> {
    open spec fn can_combine(input: TreeF<A, Self>) -> bool {
        true
    }

    open spec fn combined(input: TreeF<A, Self>) -> Self {
        match input {
            TreeF::Empty => TreeNode::Empty,
            TreeF::Branch { val, left, right } => TreeNode::Branch {
                val: val,
                left: Box::new(left),
                right: Box::new(right),
            },
        }
    }

    fn combine(input: TreeF<A, TreeNode<A>>) -> (node: TreeNode<A>) {
        match input {
            TreeF::Empty => TreeNode::Empty,
            TreeF::Branch { val, left, right } => TreeNode::Branch {
                val: val,
                left: Box::new(left),
                right: Box::new(right),
            },
        }
    }
}

impl<A> TreeCoalgebra<A> for TreeNode<A> {
    open spec fn separated(self) -> TreeF<A, Self> {
        match self {
            TreeNode::Empty => TreeF::Empty,
            TreeNode::Branch { val, left, right } => TreeF::Branch {
                val: val,
                left: *left,
                right: *right,
            },
        }
    }

    fn separate(input: TreeNode<A>) -> (shape: TreeF<A, TreeNode<A>>) {
        match input {
            TreeNode::Empty => TreeF::Empty,
            TreeNode::Branch { val, left, right } => TreeF::Branch {
                val: val,
                left: *left,
                right: *right,
            },
        }
    }

    fn is_branch(input: &TreeNode<A>) -> (b: bool) {
        match input {
            TreeNode::Empty => false,
            TreeNode::Branch { .. } => true,
        }
    }
}

impl<A> SequenceTree<A> for TreeNode<A> {
    open spec fn wf(self) -> bool {
        true
    }

    open spec fn in_order(self) -> Seq<A> {
        self.keys()
    }

    open spec fn fits(n: nat) -> bool {
        true
    }

    proof fn fits_fewer(n: nat, m: nat) {
    }

    proof fn wf_fits(self) {
    }

    proof fn separate_law(self) {
    }

    proof fn combine_law(input: TreeF<A, Self>) {
    }
}

/// Steps down in a plain tree take nothing apart for good: the zipper
/// still zips to the tree it set out from.
pub proof fn lemma_walk_round_trip<A>(start: Location<A, TreeNode<A>>, turns: Seq<Direction>)
    ensures
        start.walked(turns).zipped() == start.zipped(),
        start.walked(turns).rebuilt() == start.walked(turns),
    decreases turns.len(),
{
    if turns.len() > 0 {
        let before = start.walked(turns.drop_last());
        lemma_walk_round_trip(start, turns.drop_last());
        let down = before.child(turns.last());
        match before.layer() {
            TreeF::Empty => {
                assert(down == before);
            },
            TreeF::Branch { val, left, right } => {
                assert(down.path.drop_last() =~= before.path);
                assert(down.parent() == before);
            },
        }
    }
}

/// A zipper that a descent in a plain tree has made zips back to that very
/// tree.
pub proof fn lemma_round_trip<A>(root: TreeNode<A>, loc: Location<A, TreeNode<A>>)
    requires
        loc.descent_of(root),
    ensures
        loc.zipped() == root,
{
    lemma_walk_round_trip(
        Location { path: Seq::<TreeZipperStep<A, TreeNode<A>>>::empty(), here: root },
        turns(loc.path),
    );
}

} // verus!
