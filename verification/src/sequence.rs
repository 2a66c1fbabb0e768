//! A sequence of bits with random access, point update and range reversal.

use vstd::prelude::*;
use crate::bits::{get_size, BitRangeNode, Reversible};
use crate::interval::{brought, find_index, isolate_interval, isolated, located};
use crate::shape::{SequenceTree, TreeAlgebra, TreeCoalgebra, TreeF};
use crate::splay::splay;
use crate::zipper::{
    end, lemma_focus_split, lemma_parent, lemma_sub_branch, path_after, path_before, zip_tree,
    Location, TreeZipper,
};

verus! {

/// A sequence with the positions `first` to `last`, both included, in
/// reverse order; the sequence itself where these are no range of its
/// positions.
pub open spec fn with_reversed(bits: Seq<bool>, first: int, last: int) -> Seq<bool> {
    if 0 <= first <= last < bits.len() {
        bits.subrange(0, first) + bits.subrange(first, last + 1).reverse() + bits.subrange(
            last + 1,
            bits.len() as int,
        )
    } else {
        bits
    }
}

/// A sequence of `n` bits, all false; of none for a negative `n`.
pub open spec fn zeros(n: int) -> Seq<bool> {
    Seq::new(
        if n < 0 {
            0nat
        } else {
            n as nat
        },
        |k: int| false,
    )
}

/// The bit at position `index`, if the sequence has such a position.
pub open spec fn bit_at(bits: Seq<bool>, index: int) -> Option<bool> {
    if 0 <= index < bits.len() {
        Some(bits[index])
    } else {
        None
    }
}

/// A sequence with the bit at position `index` set to `val`; the sequence
/// itself where it has no such position.
pub open spec fn with_bit(bits: Seq<bool>, index: int, val: bool) -> Seq<bool> {
    if 0 <= index < bits.len() {
        bits.update(index, val)
    } else {
        bits
    }
}

/// The position that an access at `index` brings to the root: the position
/// itself, or for an index out of range the first or the last position,
/// whichever is nearer. An empty sequence has no root.
pub open spec fn touched(len: nat, index: int) -> Option<int> {
    if len == 0 {
        None
    } else if index < 0 {
        Some(0)
    } else if index >= len {
        Some(len - 1)
    } else {
        Some(index)
    }
}

/// The same range reversed twice gives the sequence back.
pub proof fn lemma_reversed_twice(bits: Seq<bool>, first: int, last: int)
    ensures
        with_reversed(with_reversed(bits, first, last), first, last) == bits,
        with_reversed(bits, first, last).len() == bits.len(),
{
    if 0 <= first <= last < bits.len() {
        let once = with_reversed(bits, first, last);
        let part = bits.subrange(first, last + 1);
        assert(once.len() == bits.len());
        assert(once.subrange(0, first) =~= bits.subrange(0, first));
        assert(once.subrange(first, last + 1) =~= part.reverse());
        assert(once.subrange(last + 1, once.len() as int) =~= bits.subrange(
            last + 1,
            bits.len() as int,
        ));
        assert(part.reverse().reverse() =~= part);
        assert(with_reversed(once, first, last) =~= bits);
    }
}

/// The reversal from the first position to the last turns the whole
/// sequence round, and twice gives the sequence back.
pub proof fn lemma_whole_reversed_twice(bits: Seq<bool>)
    ensures
        with_reversed(bits, 0, bits.len() - 1) == bits.reverse(),
        with_reversed(with_reversed(bits, 0, bits.len() - 1), 0, bits.len() - 1) == bits,
{
    lemma_reversed_twice(bits, 0, bits.len() - 1);
    if bits.len() > 0 {
        assert(bits.subrange(0, bits.len() as int) =~= bits);
    }
    assert(with_reversed(bits, 0, bits.len() - 1) =~= bits.reverse());
}

/// A bit that was set at a position of the sequence is the bit read there,
/// and every other position reads as before.
pub proof fn lemma_bit_after_set(bits: Seq<bool>, index: int, val: bool, other: int)
    requires
        0 <= index < bits.len(),
    ensures
        bit_at(with_bit(bits, index, val), index) == Some(val),
        other != index ==> bit_at(with_bit(bits, index, val), other) == bit_at(bits, other),
{
}

/// The tree after the bit at `index` was set to `val` and brought to the
/// root; for an index out of range, after the first or the last bit was
/// brought to the root.
pub open spec fn assigned(root: BitRangeNode, index: int, val: bool) -> BitRangeNode {
    let found = located(root, index, Seq::empty());
    (Location { path: found.path, here: found.here.holding(val) }).splayed().zipped()
}

/// The tree after the positions `first` to `last` were isolated and marked
/// as reversed; the tree itself where these are no range of its positions.
pub open spec fn turned(root: BitRangeNode, first: int, last: int) -> BitRangeNode {
    if 0 <= first <= last < root.count() {
        let interval = isolated(root, first, last);
        (Location { path: interval.path, here: interval.here.flipped() }).zipped()
    } else {
        root
    }
}

/// After the descent to `index` and a splay, the root is the bit at the
/// position that was touched. `raised` is the zipper whose focus the splay
/// raised and `top` the zipper that it gave.
proof fn lemma_touched(
    found: Location<bool, BitRangeNode>,
    raised: Location<bool, BitRangeNode>,
    top: Location<bool, BitRangeNode>,
    index: int,
)
    requires
        found.wf(),
        top.here.sound(),
        top.in_order() == found.in_order(),
        0 <= index < found.in_order().len() ==> found.layer() is Branch && found.front().len()
            == index,
        !(0 <= index < found.in_order().len()) ==> {
            &&& found.here == BitRangeNode::Empty
            &&& index < 0 ==> path_before(found.path) == Seq::<bool>::empty()
            &&& index >= 0 ==> path_after(found.path) == Seq::<bool>::empty()
        },
        raised == (if found.layer() is Branch || found.path.len() == 0 {
            found
        } else {
            found.parent()
        }),
        raised.layer() is Branch ==> {
            &&& top.path.len() == 0
            &&& top.layer() is Branch
            &&& top.front() == raised.front()
            &&& top.back() == raised.back()
        },
        !(raised.layer() is Branch) ==> top == found,
    ensures
        top.path.len() == 0,
        (match top.here.separated() {
            TreeF::Empty => None,
            TreeF::Branch { val, left, right } => Some(left.bits().len() as int),
        }) == touched(found.in_order().len(), index),
{
    let len = found.in_order().len();
    if raised.layer() is Branch {
        lemma_focus_split(top);
        assert(path_before(top.path) == Seq::<bool>::empty());
        assert(path_after(top.path) == Seq::<bool>::empty());
        let left = top.layer()->left;
        let right = top.layer()->right;
        assert(top.front() =~= left.bits());
        assert(top.back() =~= right.bits());
        assert(len == left.bits().len() + 1 + right.bits().len());
        if found.layer() is Branch {
            assert(left.bits().len() == index);
        } else {
            lemma_parent(found);
            let up = found.path.last();
            assert(found.here.bits() =~= Seq::<bool>::empty());
            if index < 0 {
                if up.direction is Right {
                    assert((raised.front() + seq![up.parent_val]).len() > 0);
                }
                assert(up.direction is Left);
                assert(raised.front() =~= Seq::<bool>::empty());
                assert(left.bits().len() == 0);
            } else {
                if up.direction is Left {
                    assert((seq![up.parent_val] + raised.back()).len() > 0);
                }
                assert(up.direction is Right);
                assert(raised.back() =~= Seq::<bool>::empty());
                assert(right.bits().len() == 0);
            }
        }
    } else {
        assert(found.path.len() == 0) by {
            if found.path.len() > 0 {
                lemma_parent(found);
            }
        }
        assert(found.in_order() =~= found.here.bits());
    }
}

/// A sequence of bits of fixed length.
#[derive(Debug)]
pub struct BitRange {
    root: BitRangeNode,
}

impl View for BitRange {
    type V = Seq<bool>;

    /// The bits in logical order: the in-order traversal of the tree after
    /// all pending reversals.
    open spec fn view(&self) -> Seq<bool> {
        self.tree().bits()
    }
}

impl BitRange {
    /// The tree that holds the bits.
    pub closed spec fn tree(&self) -> BitRangeNode {
        self.root
    }

    /// Every stored size is the number of bits below it.
    pub open spec fn wf(&self) -> bool {
        self.tree().sound()
    }

    /// The position of the bit at the root of the tree, if there is one.
    pub open spec fn root_position(&self) -> Option<int> {
        match self.tree().separated() {
            TreeF::Empty => None,
            TreeF::Branch { val, left, right } => Some(left.bits().len() as int),
        }
    }

    /// A sequence of `n` bits, all false; of none for a negative `n`.
    pub fn new(n: i32) -> (range: BitRange)
        ensures
            range.wf(),
            range@ == zeros(n as int),
    {
        let mut root = BitRangeNode::Empty;
        let mut made: i32 = 0;
        while made < n
            invariant
                0 <= made,
                made <= n || made == 0,
                root.sound(),
                root.bits() == zeros(made as int),
            decreases n - made,
        {
            let ghost before = root.bits();
            let mut zipper = end(root);
            proof {
                lemma_sub_branch::<bool, BitRangeNode>(
                    1,
                    false,
                    BitRangeNode::Empty,
                    BitRangeNode::Empty,
                );
            }
            zipper.here = BitRangeNode::combine(
                TreeF::Branch {
                    val: false,
                    left: BitRangeNode::Empty,
                    right: BitRangeNode::Empty,
                },
            );
            proof {
                assert(zipper@.here.bits() =~= seq![false]);
                assert(zipper@.in_order() =~= before + seq![false]);
                assert(before + seq![false] =~= zeros(made + 1));
            }
            root = zip_tree(splay(zipper));
            made = made + 1;
        }
        proof {
            assert(root.bits() =~= zeros(n as int));
        }
        BitRange { root: root }
    }

    /// The number of bits.
    pub fn len(&self) -> (n: i32)
        requires
            self.wf(),
        ensures
            n == self@.len(),
    {
        get_size(&self.root)
    }

    /// The position of the bit at the root of the tree, if there is one.
    pub fn root_index(&self) -> (position: Option<i32>)
        requires
            self.wf(),
        ensures
            match position {
                None => self.root_position() is None,
                Some(p) => self.root_position() == Some(p as int),
            },
    {
        match &self.root {
            BitRangeNode::Empty => None,
            BitRangeNode::Branch { reversed, left, right, .. } => {
                proof {
                    left.lemma_flipped();
                    right.lemma_flipped();
                }
                if *reversed {
                    Some(get_size(right))
                } else {
                    Some(get_size(left))
                }
            },
        }
    }

    /// Sets the bit at `index`; an index out of range changes nothing. The
    /// position that was touched is brought to the root.
    pub fn set(&mut self, index: i32, val: bool)
        requires
            old(self).wf(),
        ensures
            final(self).wf(),
            final(self)@ == with_bit(old(self)@, index as int, val),
            final(self).root_position() == touched(old(self)@.len(), index as int),
            final(self).tree() == assigned(old(self).tree(), index as int, val),
    {
        let ghost bits = self@;
        let mut old_root = BitRangeNode::Empty;
        std::mem::swap(&mut self.root, &mut old_root);
        let found = find_index(old_root, index);
        let ghost at = found@;
        let TreeZipper { path, here } = found;
        let here = match here {
            BitRangeNode::Empty => BitRangeNode::Empty,
            BitRangeNode::Branch { size, reversed, left, right, .. } => BitRangeNode::Branch {
                here: val,
                size: size,
                reversed: reversed,
                left: left,
                right: right,
            },
        };
        assert(here == at.here.holding(val));
        let zipper = TreeZipper { path: path, here: here };
        proof {
            if 0 <= index < bits.len() {
                lemma_focus_split(at);
                at.here.separate_law();
                zipper@.here.separate_law();
                assert(zipper@.in_order() =~= bits.update(index as int, val));
                assert(zipper@.front() == at.front());
            } else {
                assert(zipper@ == at);
            }
        }
        let top = splay(zipper);
        proof {
            lemma_touched(zipper@, zipper@.raised(), top@, index as int);
        }
        self.root = zip_tree(top);
    }

    /// The bit at `index`, or nothing for an index out of range. The bits
    /// stay as they are; the place that was touched is brought to the root.
    pub fn get(&mut self, index: i32) -> (bit: Option<bool>)
        requires
            old(self).wf(),
        ensures
            final(self).wf(),
            final(self)@ == old(self)@,
            bit == bit_at(old(self)@, index as int),
            final(self).root_position() == touched(old(self)@.len(), index as int),
            final(self).tree() == brought(old(self).tree(), index as int),
    {
        let mut old_root = BitRangeNode::Empty;
        std::mem::swap(&mut self.root, &mut old_root);
        let zipper = find_index(old_root, index);
        let result = match &zipper.here {
            BitRangeNode::Empty => None,
            BitRangeNode::Branch { here, .. } => Some(*here),
        };
        let top = splay(zipper);
        proof {
            lemma_touched(zipper@, zipper@.raised(), top@, index as int);
        }
        self.root = zip_tree(top);
        result
    }

    /// Reverses the order of the bits at the positions `index_start` to
    /// `index_end`, both included. Positions that are no such range within
    /// the sequence change nothing.
    pub fn reverse_range(&mut self, index_start: i32, index_end: i32)
        requires
            old(self).wf(),
        ensures
            final(self).wf(),
            final(self)@ == with_reversed(old(self)@, index_start as int, index_end as int),
            final(self).tree() == turned(old(self).tree(), index_start as int, index_end as int),
    {
        let ghost bits = self@;
        if index_start < 0 || index_start > index_end || index_end >= get_size(&self.root) {
            return ;
        }
        let mut tmp_root = BitRangeNode::Empty;
        std::mem::swap(&mut self.root, &mut tmp_root);
        let mut zipper = isolate_interval(tmp_root, index_start, index_end);
        let ghost isolated = zipper@;
        proof {
            isolated.here.lemma_flipped();
        }
        zipper.here = Reversible::reversed(zipper.here);
        proof {
            assert(zipper@.in_order() =~= with_reversed(
                bits,
                index_start as int,
                index_end as int,
            ));
        }
        self.root = zip_tree(zipper);
    }
}

} // verus!
