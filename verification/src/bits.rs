//! Bit nodes: a branch holds a bit, the number of branches below and at it,
//! and a flag that marks the subtree as logically reversed.

use vstd::prelude::*;
use crate::shape::{SequenceTree, TreeAlgebra, TreeCoalgebra, TreeF};

verus! {

/// A binary tree of bits with subtree sizes and lazy reversal.
#[derive(Debug)]
pub enum BitRangeNode {
    Empty,
    Branch {
        here: bool,
        size: i32,
        reversed: bool,
        left: Box<BitRangeNode>,
        right: Box<BitRangeNode>,
    },
}

/// A node whose logical order can be flipped at its root.
pub trait Reversible: Sized {
    /// The node with the reversal flag at its root toggled.
    spec fn flipped(self) -> Self;

    fn reversed(input: Self) -> (node: Self)
        ensures
            node == input.flipped(),
    ;
}

impl BitRangeNode {
    /// The size that the node stores; an empty node has size 0.
    pub open spec fn count(self) -> int {
        match self {
            BitRangeNode::Empty => 0,
            BitRangeNode::Branch { size, .. } => size as int,
        }
    }

    /// The bits of the tree in logical order: a set flag reverses the order
    /// of everything below it.
    pub open spec fn bits(self) -> Seq<bool>
        decreases self,
    {
        match self {
            BitRangeNode::Empty => Seq::empty(),
            BitRangeNode::Branch { here, reversed, left, right, .. } => {
                let stored = left.bits() + seq![here] + right.bits();
                if reversed {
                    stored.reverse()
                } else {
                    stored
                }
            },
        }
    }

    /// Every branch stores one more than the sizes of its two children.
    pub open spec fn sound(self) -> bool
        decreases self,
    {
        match self {
            BitRangeNode::Empty => true,
            BitRangeNode::Branch { size, left, right, .. } => {
                &&& left.sound()
                &&& right.sound()
                &&& size == left.count() + right.count() + 1
            },
        }
    }

    /// The node with the bit at its root replaced; everything else, the
    /// stored children too, stays as it is.
    pub open spec fn holding(self, val: bool) -> BitRangeNode {
        match self {
            BitRangeNode::Empty => BitRangeNode::Empty,
            BitRangeNode::Branch { here, size, reversed, left, right } => BitRangeNode::Branch {
                here: val,
                size: size,
                reversed: reversed,
                left: left,
                right: right,
            },
        }
    }

    /// The number of branches on the longest way down.
    pub open spec fn depth(self) -> nat
        decreases self,
    {
        match self {
            BitRangeNode::Empty => 0,
            BitRangeNode::Branch { left, right, .. } => {
                if left.depth() >= right.depth() {
                    left.depth() + 1
                } else {
                    right.depth() + 1
                }
            },
        }
    }

    /// In a sound tree the stored size is the number of bits.
    pub proof fn lemma_count(self)
        requires
            self.sound(),
        ensures
            self.count() == self.bits().len(),
        decreases self,
    {
        match self {
            BitRangeNode::Empty => {},
            BitRangeNode::Branch { here, reversed, left, right, .. } => {
                left.lemma_count();
                right.lemma_count();
            },
        }
    }

    /// Toggling the flag at the root reverses the logical order and leaves
    /// the sizes alone.
    pub proof fn lemma_flipped(self)
        ensures
            self.flipped().bits() == self.bits().reverse(),
            self.flipped().count() == self.count(),
            self.flipped().depth() == self.depth(),
            self.sound() ==> self.flipped().sound(),
    {
        match self {
            BitRangeNode::Empty => {
                assert(self.bits().reverse() =~= Seq::<bool>::empty());
            },
            BitRangeNode::Branch { here, reversed, left, right, .. } => {
                let stored = left.bits() + seq![here] + right.bits();
                assert(stored.reverse().reverse() =~= stored);
            },
        }
    }
}

impl Reversible for BitRangeNode {
    open spec fn flipped(self) -> BitRangeNode {
        match self {
            BitRangeNode::Empty => BitRangeNode::Empty,
            BitRangeNode::Branch { here, size, reversed, left, right } => BitRangeNode::Branch {
                here: here,
                size: size,
                reversed: !reversed,
                left: left,
                right: right,
            },
        }
    }

    fn reversed(input: BitRangeNode) -> (node: BitRangeNode) {
        match input {
            BitRangeNode::Empty => BitRangeNode::Empty,
            BitRangeNode::Branch { here, size, reversed, left, right } => BitRangeNode::Branch {
                here: here,
                size: size,
                reversed: !reversed,
                left: left,
                right: right,
            },
        }
    }
}

/// The size stored at the root of a node, which in a sound tree is the
/// number of its bits.
pub fn get_size(n: &BitRangeNode) -> (size: i32)
    ensures
        size == n.count(),
        n.sound() ==> size == n.bits().len(),
{
    proof {
        if n.sound() {
            n.lemma_count();
        }
    }
    match n {
        BitRangeNode::Empty => 0,
        BitRangeNode::Branch { size: s, .. } => *s,
    }
}

impl TreeAlgebra<bool> for BitRangeNode {
    open spec fn can_combine(input: TreeF<bool, BitRangeNode>) -> bool {
        match input {
            TreeF::Empty => true,
            TreeF::Branch { val, left, right } => {
                &&& i32::MIN <= left.count() + right.count()
                &&& left.count() + right.count() + 1 <= i32::MAX
            },
        }
    }

    open spec fn combined(input: TreeF<bool, BitRangeNode>) -> BitRangeNode {
        match input {
            TreeF::Empty => BitRangeNode::Empty,
            TreeF::Branch { val, left, right } => BitRangeNode::Branch {
                here: val,
                size: (left.count() + right.count() + 1) as i32,
                reversed: false,
                left: Box::new(left),
                right: Box::new(right),
            },
        }
    }

    fn combine(input: TreeF<bool, BitRangeNode>) -> (node: BitRangeNode) {
        match input {
            TreeF::Empty => BitRangeNode::Empty,
            TreeF::Branch { val, left, right } => BitRangeNode::Branch {
                here: val,
                size: get_size(&left) + get_size(&right) + 1,
                reversed: false,
                left: Box::new(left),
                right: Box::new(right),
            },
        }
    }
}

impl TreeCoalgebra<bool> for BitRangeNode {
    open spec fn separated(self) -> TreeF<bool, BitRangeNode> {
        match self {
            BitRangeNode::Empty => TreeF::Empty,
            BitRangeNode::Branch { here, reversed, left, right, .. } => {
                if reversed {
                    TreeF::Branch { val: here, left: right.flipped(), right: left.flipped() }
                } else {
                    TreeF::Branch { val: here, left: *left, right: *right }
                }
            },
        }
    }

    fn separate(input: BitRangeNode) -> (shape: TreeF<bool, BitRangeNode>) {
        match input {
            BitRangeNode::Empty => TreeF::Empty,
            BitRangeNode::Branch { here, reversed, left, right, .. } => {
                if reversed {
                    TreeF::Branch {
                        val: here,
                        left: Reversible::reversed(*right),
                        right: Reversible::reversed(*left),
                    }
                } else {
                    TreeF::Branch { val: here, left: *left, right: *right }
                }
            },
        }
    }

    fn is_branch(input: &BitRangeNode) -> (b: bool) {
        match input {
            BitRangeNode::Empty => false,
            BitRangeNode::Branch { .. } => true,
        }
    }
}

impl SequenceTree<bool> for BitRangeNode {
    open spec fn wf(self) -> bool {
        self.sound()
    }

    open spec fn in_order(self) -> Seq<bool> {
        self.bits()
    }

    open spec fn fits(n: nat) -> bool {
        n <= i32::MAX
    }

    proof fn fits_fewer(n: nat, m: nat) {
    }

    proof fn wf_fits(self) {
        self.lemma_count();
    }

    proof fn separate_law(self) {
        match self {
            BitRangeNode::Empty => {},
            BitRangeNode::Branch { here, reversed, left, right, .. } => {
                if reversed {
                    left.lemma_flipped();
                    right.lemma_flipped();
                    let stored = left.bits() + seq![here] + right.bits();
                    assert(stored.reverse() =~= right.bits().reverse() + seq![here]
                        + left.bits().reverse());
                }
            },
        }
    }

    proof fn combine_law(input: TreeF<bool, Self>) {
        match input {
            TreeF::Empty => {},
            TreeF::Branch { val, left, right } => {
                left.lemma_count();
                right.lemma_count();
            },
        }
    }
}

} // verus!
