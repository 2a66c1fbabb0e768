//! One layer of a binary tree, and the traits that build and take apart nodes.

use vstd::prelude::*;

verus! {

/// The shape of one layer of a binary tree: nothing, or a value with two
/// children of type `B`.
#[derive(Debug)]
pub enum TreeF<A, B> {
    Empty,
    Branch { val: A, left: B, right: B },
}

/// A node type that can be built from one layer whose children are nodes.
pub trait TreeAlgebra<A>: Sized {
    /// Whether `combine` accepts the layer (an annotation may have a limit).
    spec fn can_combine(input: TreeF<A, Self>) -> bool;

    /// The node that `combine` builds from the layer.
    spec fn combined(input: TreeF<A, Self>) -> Self;

    fn combine(input: TreeF<A, Self>) -> (node: Self)
        requires
            Self::can_combine(input),
        ensures
            node == Self::combined(input),
    ;
}

/// A node type that can be taken apart into one layer whose children are
/// nodes. Taking a node apart is where pending lazy work is pushed one level
/// down.
pub trait TreeCoalgebra<A>: Sized {
    /// The layer that `separate` yields.
    spec fn separated(self) -> TreeF<A, Self>;

    fn separate(input: Self) -> (shape: TreeF<A, Self>)
        ensures
            shape == input.separated(),
    ;

    fn is_branch(input: &Self) -> (b: bool)
        ensures
            b == (input.separated() is Branch),
    ;
}

/// A node type whose `combine` and `separate` agree on a logical sequence of
/// values: the in-order traversal after all lazy work is accounted for.
pub trait SequenceTree<A>: TreeAlgebra<A> + TreeCoalgebra<A> {
    /// The node's internal invariant (annotations are consistent).
    spec fn wf(self) -> bool;

    /// The values of the tree in logical order.
    spec fn in_order(self) -> Seq<A>;

    /// Whether a tree of this type can hold `n` values.
    spec fn fits(n: nat) -> bool;

    /// A tree that can hold `n` values can hold fewer.
    proof fn fits_fewer(n: nat, m: nat)
        requires
            Self::fits(n),
            m <= n,
        ensures
            Self::fits(m),
    ;

    /// A well-formed tree holds no more than fits.
    proof fn wf_fits(self)
        requires
            self.wf(),
        ensures
            Self::fits(self.in_order().len()),
    ;

    /// Taking a well-formed node apart yields well-formed children that hold,
    /// around the node's value, the node's logical sequence.
    proof fn separate_law(self)
        requires
            self.wf(),
        ensures
            match self.separated() {
                TreeF::Empty => self.in_order() == Seq::<A>::empty(),
                TreeF::Branch { val, left, right } => {
                    &&& left.wf()
                    &&& right.wf()
                    &&& self.in_order() == left.in_order() + seq![val] + right.in_order()
                },
            },
    ;

    /// A layer of well-formed children that fits can be combined; the result
    /// is well formed and comes apart into the same layer.
    proof fn combine_law(input: TreeF<A, Self>)
        requires
            match input {
                TreeF::Empty => true,
                TreeF::Branch { val, left, right } => {
                    &&& left.wf()
                    &&& right.wf()
                    &&& Self::fits(left.in_order().len() + 1 + right.in_order().len())
                },
            },
        ensures
            Self::can_combine(input),
            Self::combined(input).wf(),
            Self::combined(input).separated() == input,
    ;
}

} // verus!
