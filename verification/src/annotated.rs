//! Annotated nodes: every node carries a summary of its subtree, computed
//! by an algebra over the same layers.

use vstd::prelude::*;
use crate::shape::{TreeAlgebra, TreeCoalgebra, TreeF};

verus! {

/// A binary tree in which every node, the empty one too, carries an
/// annotation of type `B`.
#[derive(Debug)]
pub enum AnnotatedTreeNode<A, B> {
    Empty { annotation: B },
    Branch {
        annotation: B,
        val: A,
        left: Box<AnnotatedTreeNode<A, B>>,
        right: Box<AnnotatedTreeNode<A, B>>,
    },
}

impl<A, B> AnnotatedTreeNode<A, B> {
    /// The annotation at the root of the node.
    pub open spec fn note(self) -> B {
        match self {
            AnnotatedTreeNode::Empty { annotation } => annotation,
            AnnotatedTreeNode::Branch { annotation, .. } => annotation,
        }
    }

    /// The annotation at the root of the node.
    pub fn annotation(&self) -> (note: &B)
        ensures
            *note == self.note(),
    {
        match self {
            AnnotatedTreeNode::Empty { annotation } => annotation,
            AnnotatedTreeNode::Branch { annotation, .. } => annotation,
        }
    }
}

/// The layer of annotations under a layer of annotated nodes.
pub open spec fn notes<A, B>(input: TreeF<A, AnnotatedTreeNode<A, B>>) -> TreeF<A, B> {
    match input {
        TreeF::Empty => TreeF::Empty,
        TreeF::Branch { val, left, right } => TreeF::Branch {
            val: val,
            left: left.note(),
            right: right.note(),
        },
    }
}

impl<A: Copy, B: TreeAlgebra<A> + Copy> TreeAlgebra<A> for AnnotatedTreeNode<A, B> {
    open spec fn can_combine(input: TreeF<A, Self>) -> bool {
        B::can_combine(notes(input))
    }

    /// The node over the layer, annotated with what `B` combines from the
    /// value and the annotations of the two children.
    open spec fn combined(input: TreeF<A, Self>) -> Self {
        match input {
            TreeF::Empty => AnnotatedTreeNode::Empty { annotation: B::combined(TreeF::Empty) },
            TreeF::Branch { val, left, right } => AnnotatedTreeNode::Branch {
                annotation: B::combined(notes(input)),
                val: val,
                left: Box::new(left),
                right: Box::new(right),
            },
        }
    }

    fn combine(input: TreeF<A, AnnotatedTreeNode<A, B>>) -> (node: AnnotatedTreeNode<A, B>) {
        match input {
            TreeF::Empty => AnnotatedTreeNode::Empty { annotation: B::combine(TreeF::Empty) },
            TreeF::Branch { val, left, right } => {
                let new_ann = B::combine(
                    TreeF::Branch {
                        val: val,
                        left: *left.annotation(),
                        right: *right.annotation(),
                    },
                );
                AnnotatedTreeNode::Branch {
                    annotation: new_ann,
                    val: val,
                    left: Box::new(left),
                    right: Box::new(right),
                }
            },
        }
    }
}

impl<A, B> TreeCoalgebra<A> for AnnotatedTreeNode<A, B> {
    open spec fn separated(self) -> TreeF<A, Self> {
        match self {
            AnnotatedTreeNode::Empty { .. } => TreeF::Empty,
            AnnotatedTreeNode::Branch { val, left, right, .. } => TreeF::Branch {
                val: val,
                left: *left,
                right: *right,
            },
        }
    }

    fn separate(input: AnnotatedTreeNode<A, B>) -> (shape: TreeF<A, AnnotatedTreeNode<A, B>>) {
        match input {
            AnnotatedTreeNode::Empty { .. } => TreeF::Empty,
            AnnotatedTreeNode::Branch { val, left, right, .. } => TreeF::Branch {
                val: val,
                left: *left,
                right: *right,
            },
        }
    }

    fn is_branch(input: &AnnotatedTreeNode<A, B>) -> (b: bool) {
        match input {
            AnnotatedTreeNode::Empty { .. } => false,
            AnnotatedTreeNode::Branch { .. } => true,
        }
    }
}

} // verus!
