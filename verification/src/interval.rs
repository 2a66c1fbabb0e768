//! Positions in a tree of bits: the descent to an index by subtree sizes,
//! and the isolation of an interval of positions as one subtree.

use vstd::prelude::*;
use crate::bits::{get_size, BitRangeNode};
use crate::shape::{SequenceTree, TreeAlgebra, TreeCoalgebra, TreeF};
use crate::splay::{lemma_before_last, splay};
use crate::zipper::{
    branch, left_zipper, lemma_branch_iff_nonempty, lemma_child, lemma_empty, lemma_focus_split,
    lemma_sub_branch, parent_zipper, path_after, path_before, right_zipper, root_zipper,
    rotate_zipper, zip_tree, Direction, Location, TreeZipper, TreeZipperStep,
};

verus! {

/// Where the descent by subtree sizes ends: `find_index` as a function of
/// the tree, the index and the path so far. At each branch the stored size
/// of the left subtree decides: smaller than the index, go right with what
/// is left of the index; equal, stop at the branch, which is rebuilt; larger,
/// go left.
pub open spec fn located(
    node: BitRangeNode,
    index: int,
    path: Seq<TreeZipperStep<bool, BitRangeNode>>,
) -> Location<bool, BitRangeNode>
    decreases node.depth(),
    via located_decreases
{
    match node.separated() {
        TreeF::Empty => Location { path: path, here: BitRangeNode::Empty },
        TreeF::Branch { val, left, right } => {
            if left.count() < index {
                located(
                    right,
                    index - left.count() - 1,
                    path.push(
                        TreeZipperStep {
                            direction: Direction::Right,
                            parent_val: val,
                            sibling: left,
                        },
                    ),
                )
            } else if left.count() == index {
                Location { path: path, here: branch(val, left, right) }
            } else {
                located(
                    left,
                    index,
                    path.push(
                        TreeZipperStep {
                            direction: Direction::Left,
                            parent_val: val,
                            sibling: right,
                        },
                    ),
                )
            }
        },
    }
}

#[via_fn]
proof fn located_decreases(
    node: BitRangeNode,
    index: int,
    path: Seq<TreeZipperStep<bool, BitRangeNode>>,
) {
    match node {
        BitRangeNode::Empty => {},
        BitRangeNode::Branch { left, right, .. } => {
            left.lemma_flipped();
            right.lemma_flipped();
        },
    }
}

/// The descent only adds steps: the path so far stays at the front of the
/// path on which it ends.
pub proof fn lemma_located_keeps_path(
    node: BitRangeNode,
    index: int,
    path: Seq<TreeZipperStep<bool, BitRangeNode>>,
)
    ensures
        located(node, index, path).path.len() >= path.len(),
        located(node, index, path).path.subrange(0, path.len() as int) == path,
    decreases node.depth(),
{
    match node {
        BitRangeNode::Empty => {},
        BitRangeNode::Branch { left, right, .. } => {
            left.lemma_flipped();
            right.lemma_flipped();
        },
    }
    let end = located(node, index, path);
    match node.separated() {
        TreeF::Empty => {
            assert(end.path.subrange(0, path.len() as int) =~= path);
        },
        TreeF::Branch { val, left, right } => {
            if left.count() < index {
                let longer = path.push(
                    TreeZipperStep { direction: Direction::Right, parent_val: val, sibling: left },
                );
                lemma_located_keeps_path(right, index - left.count() - 1, longer);
                assert(end.path.subrange(0, path.len() as int) =~= end.path.subrange(
                    0,
                    longer.len() as int,
                ).subrange(0, path.len() as int));
                assert(longer.subrange(0, path.len() as int) =~= path);
            } else if left.count() == index {
                assert(end.path.subrange(0, path.len() as int) =~= path);
            } else {
                let longer = path.push(
                    TreeZipperStep { direction: Direction::Left, parent_val: val, sibling: right },
                );
                lemma_located_keeps_path(left, index, longer);
                assert(end.path.subrange(0, path.len() as int) =~= end.path.subrange(
                    0,
                    longer.len() as int,
                ).subrange(0, path.len() as int));
                assert(longer.subrange(0, path.len() as int) =~= path);
            }
        },
    }
}

/// Descends to the given position by subtree sizes. At each branch the size
/// of the left subtree is held against what is left of the index: where it
/// is smaller the search goes right, past the left subtree and the branch;
/// where it is equal the branch is the one looked for; where it is larger
/// the search goes left. An index out of range ends on an empty focus: the
/// place in front of the first bit for a negative index, the place behind
/// the last bit for one that is too large.
pub fn find_index(root: BitRangeNode, index: i32) -> (found: TreeZipper<bool, BitRangeNode>)
    requires
        root.sound(),
    ensures
        found@ == located(root, index as int, Seq::empty()),
        found@.wf(),
        found@.in_order() == root.bits(),
        found@.here matches BitRangeNode::Branch { reversed, .. } ==> !reversed,
        0 <= index < root.bits().len() ==> {
            &&& found@.layer() is Branch
            &&& found@.front().len() == index
            &&& found@.layer()->val == root.bits()[index as int]
        },
        !(0 <= index < root.bits().len()) ==> {
            &&& found@.here == BitRangeNode::Empty
            &&& index < 0 ==> path_before(found@.path) == Seq::<bool>::empty()
            &&& index >= 0 ==> path_after(found@.path) == Seq::<bool>::empty()
        },
{
    let mut node = root;
    let mut remaining: i32 = index;
    let mut path: Vec<TreeZipperStep<bool, BitRangeNode>> = Vec::new();
    let ghost total = root.bits();
    proof {
        root.wf_fits();
        assert((Location { path: path@, here: node }).in_order() =~= total);
    }
    loop
        invariant
            total == root.bits(),
            located(node, remaining as int, path@) == located(root, index as int, Seq::empty()),
            (Location { path: path@, here: node }).wf(),
            (Location { path: path@, here: node }).in_order() == total,
            remaining == index - path_before(path@).len(),
            0 <= index < total.len() ==> 0 <= remaining < node.bits().len(),
            index < 0 ==> path_before(path@) == Seq::<bool>::empty(),
            index >= total.len() ==> path_after(path@) == Seq::<bool>::empty(),
        ensures
            (Location { path: path@, here: node }) == located(root, index as int, Seq::empty()),
            (Location { path: path@, here: node }).wf(),
            (Location { path: path@, here: node }).in_order() == total,
            node matches BitRangeNode::Branch { reversed, .. } ==> !reversed,
            0 <= index < total.len() ==> {
                &&& node.separated() is Branch
                &&& (Location { path: path@, here: node }).front().len() == index
            },
            !(0 <= index < total.len()) ==> {
                &&& node == BitRangeNode::Empty
                &&& index < 0 ==> path_before(path@) == Seq::<bool>::empty()
                &&& index >= 0 ==> path_after(path@) == Seq::<bool>::empty()
            },
        decreases node.bits().len(),
    {
        let ghost loc = Location { path: path@, here: node };
        proof {
            node.separate_law();
            lemma_empty::<bool, BitRangeNode>();
        }
        match BitRangeNode::separate(node) {
            TreeF::Empty => {
                node = BitRangeNode::combine(TreeF::Empty);
                break ;
            },
            TreeF::Branch { val, left, right } => {
                let left_size: i32 = get_size(&left);
                if left_size < remaining {
                    proof {
                        lemma_child(loc, Direction::Right);
                    }
                    path.push(
                        TreeZipperStep {
                            direction: Direction::Right,
                            parent_val: val,
                            sibling: left,
                        },
                    );
                    node = right;
                    remaining = remaining - left_size - 1;
                } else if left_size == remaining {
                    proof {
                        lemma_sub_branch(total.len(), val, left, right);
                        assert(0 <= index < total.len());
                    }
                    node = BitRangeNode::combine(
                        TreeF::Branch { val: val, left: left, right: right },
                    );
                    break ;
                } else {
                    proof {
                        lemma_child(loc, Direction::Left);
                    }
                    path.push(
                        TreeZipperStep {
                            direction: Direction::Left,
                            parent_val: val,
                            sibling: right,
                        },
                    );
                    node = left;
                }
            },
        }
    }
    let found = TreeZipper { path: path, here: node };
    proof {
        if 0 <= index < total.len() {
            lemma_focus_split(found@);
        }
    }
    found
}

/// The tree after the descent to `index` and a splay: the bit at `index`,
/// or for an index out of range the first or the last bit, is at the root.
pub open spec fn brought(root: BitRangeNode, index: int) -> BitRangeNode {
    located(root, index, Seq::empty()).splayed().zipped()
}

/// Where the old root of a tree is found after the bit at `index` was
/// brought to the root, with `top` the new tree: it is a child of the new
/// root, on the side away from which the bit came, with its other subtree
/// still below it; or, where the first two steps to the bit went to the
/// same side, a grandchild below the node of the second step.
pub open spec fn old_root_below(root: BitRangeNode, index: int, top: BitRangeNode) -> bool {
    match (root.separated(), top.separated()) {
        (
            TreeF::Branch { val: rv, left: rl, right: rr },
            TreeF::Branch { val: tv, left: tl, right: tr },
        ) => {
            if rl.count() < index {
                match tl.separated() {
                    TreeF::Empty => false,
                    TreeF::Branch { val: lv, left: ll, right: lr } => {
                        ||| lv == rv && ll == rl
                        ||| match rr.separated() {
                            TreeF::Empty => false,
                            TreeF::Branch { val: cv, left: cl, right: cr } => {
                                &&& cl.count() < index - rl.count() - 1
                                &&& lv == cv
                                &&& ll == branch(rv, rl, cl)
                            },
                        }
                    },
                }
            } else if rl.count() > index {
                match tr.separated() {
                    TreeF::Empty => false,
                    TreeF::Branch { val: xv, left: xl, right: xr } => {
                        ||| xv == rv && xr == rr
                        ||| match rl.separated() {
                            TreeF::Empty => false,
                            TreeF::Branch { val: cv, left: cl, right: cr } => {
                                &&& cl.count() > index
                                &&& xv == cv
                                &&& xr == branch(rv, cr, rr)
                            },
                        }
                    },
                }
            } else {
                true
            }
        },
        _ => true,
    }
}

/// The first steps of the descent to `index`, read off the tree: the path
/// starts with the step from the root to the side on which the bit lies,
/// and, where it has a second step, goes on with the step from that child.
proof fn lemma_first_steps(root: BitRangeNode, index: int)
    ensures
        match root.separated() {
            TreeF::Empty => true,
            TreeF::Branch { val: rv, left: rl, right: rr } => {
                let path = located(root, index, Seq::empty()).path;
                &&& rl.count() == index ==> path.len() == 0
                &&& rl.count() < index ==> {
                    &&& path.len() >= 1
                    &&& path[0] == (TreeZipperStep {
                        direction: Direction::Right,
                        parent_val: rv,
                        sibling: rl,
                    })
                    &&& path.len() >= 2 ==> match rr.separated() {
                        TreeF::Empty => false,
                        TreeF::Branch { val: cv, left: cl, right: cr } => {
                            if cl.count() < index - rl.count() - 1 {
                                path[1] == (TreeZipperStep {
                                    direction: Direction::Right,
                                    parent_val: cv,
                                    sibling: cl,
                                })
                            } else {
                                &&& cl.count() > index - rl.count() - 1
                                &&& path[1] == (TreeZipperStep {
                                    direction: Direction::Left,
                                    parent_val: cv,
                                    sibling: cr,
                                })
                            }
                        },
                    }
                }
                &&& rl.count() > index ==> {
                    &&& path.len() >= 1
                    &&& path[0] == (TreeZipperStep {
                        direction: Direction::Left,
                        parent_val: rv,
                        sibling: rr,
                    })
                    &&& path.len() >= 2 ==> match rl.separated() {
                        TreeF::Empty => false,
                        TreeF::Branch { val: cv, left: cl, right: cr } => {
                            if cl.count() < index {
                                path[1] == (TreeZipperStep {
                                    direction: Direction::Right,
                                    parent_val: cv,
                                    sibling: cl,
                                })
                            } else {
                                &&& cl.count() > index
                                &&& path[1] == (TreeZipperStep {
                                    direction: Direction::Left,
                                    parent_val: cv,
                                    sibling: cr,
                                })
                            }
                        },
                    }
                }
            },
        },
{
    let none = Seq::<TreeZipperStep<bool, BitRangeNode>>::empty();
    match root.separated() {
        TreeF::Empty => {},
        TreeF::Branch { val: rv, left: rl, right: rr } => {
            if rl.count() != index {
                let (child, rest, first) = if rl.count() < index {
                    (
                        rr,
                        index - rl.count() - 1,
                        TreeZipperStep {
                            direction: Direction::Right,
                            parent_val: rv,
                            sibling: rl,
                        },
                    )
                } else {
                    (
                        rl,
                        index,
                        TreeZipperStep {
                            direction: Direction::Left,
                            parent_val: rv,
                            sibling: rr,
                        },
                    )
                };
                let one = none.push(first);
                let end = located(child, rest, one);
                assert(located(root, index, none) == end);
                lemma_located_keeps_path(child, rest, one);
                assert(end.path.subrange(0, 1)[0] == one[0]);
                match child.separated() {
                    TreeF::Empty => {},
                    TreeF::Branch { val: cv, left: cl, right: cr } => {
                        if cl.count() < rest {
                            let two = one.push(
                                TreeZipperStep {
                                    direction: Direction::Right,
                                    parent_val: cv,
                                    sibling: cl,
                                },
                            );
                            lemma_located_keeps_path(cr, rest - cl.count() - 1, two);
                            assert(end.path.subrange(0, 2)[1] == two[1]);
                        } else if cl.count() > rest {
                            let two = one.push(
                                TreeZipperStep {
                                    direction: Direction::Left,
                                    parent_val: cv,
                                    sibling: cr,
                                },
                            );
                            lemma_located_keeps_path(cl, rest, two);
                            assert(end.path.subrange(0, 2)[1] == two[1]);
                        }
                    },
                }
            }
        },
    }
}

/// After the splay of the bit at `index` the old root is one or two levels
/// below the new one.
proof fn lemma_old_root_below(
    root: BitRangeNode,
    index: int,
    found: Location<bool, BitRangeNode>,
)
    requires
        found == located(root, index, Seq::empty()),
        found.wf(),
        found.layer() is Branch,
        root.separated() is Branch,
    ensures
        old_root_below(root, index, found.splayed().here),
{
    lemma_first_steps(root, index);
    let rl = root.separated()->left;
    if found.path.len() > 0 {
        lemma_before_last(found);
        let pre = found.before_last();
        assert(found.splayed() == pre.stepped());
        assert(pre.path[0] == found.path.subrange(0, pre.path.len() as int)[0]);
        if pre.path.len() == 2 {
            assert(pre.path[1] == found.path.subrange(0, pre.path.len() as int)[1]);
            assert(pre.path.last() == pre.path[1]);
        } else {
            assert(pre.path.last() == pre.path[0]);
        }
    }
}

/// Brings the bit at `index` to the root. The old root ends one or two
/// levels below the new one.
fn splay_index(root: BitRangeNode, index: i32) -> (top: BitRangeNode)
    requires
        root.sound(),
        0 <= index < root.bits().len(),
    ensures
        top == brought(root, index as int),
        top.sound(),
        top.bits() == root.bits(),
        old_root_below(root, index as int, top),
        top.separated() matches TreeF::Branch { val, left, right } && {
            &&& left.sound()
            &&& right.sound()
            &&& left.bits() == root.bits().subrange(0, index as int)
            &&& val == root.bits()[index as int]
            &&& right.bits() == root.bits().subrange(index + 1, root.bits().len() as int)
            &&& left.bits().len() == index
            &&& right.bits().len() == root.bits().len() - index - 1
        },
{
    proof {
        lemma_branch_iff_nonempty(root);
    }
    let found = find_index(root, index);
    let top = splay(found);
    proof {
        lemma_old_root_below(root, index as int, found@);
        lemma_focus_split(found@);
        lemma_focus_split(top@);
        top@.here.separate_law();
        assert(path_before(top@.path) == Seq::<bool>::empty());
        assert(path_after(top@.path) == Seq::<bool>::empty());
        let bits = root.bits();
        let left = top@.layer()->left;
        let right = top@.layer()->right;
        assert(left.bits() =~= top@.front());
        assert(right.bits() =~= top@.back());
        assert(left.bits() =~= bits.subrange(0, index as int));
        assert(right.bits() =~= bits.subrange(index + 1, bits.len() as int));
    }
    zip_tree(top)
}

/// A sequence in three parts is cut at the lengths of the parts.
proof fn lemma_cut(bits: Seq<bool>, front: Seq<bool>, part: Seq<bool>, back: Seq<bool>)
    requires
        bits == front + part + back,
    ensures
        front == bits.subrange(0, front.len() as int),
        part == bits.subrange(front.len() as int, (front.len() + part.len()) as int),
        back == bits.subrange((front.len() + part.len()) as int, bits.len() as int),
{
    assert(front =~= bits.subrange(0, front.len() as int));
    assert(part =~= bits.subrange(front.len() as int, (front.len() + part.len()) as int));
    assert(back =~= bits.subrange((front.len() + part.len()) as int, bits.len() as int));
}

/// What a path of two steps puts around the focus.
proof fn lemma_two_steps(path: Seq<TreeZipperStep<bool, BitRangeNode>>)
    requires
        path.len() == 2,
    ensures
        path_before(path) == path[0].before() + path[1].before(),
        path_after(path) == path[1].after() + path[0].after(),
{
    let rest = path.drop_last();
    assert(rest.last() == path[0]);
    assert(rest.drop_last().len() == 0);
    assert(path_before(rest.drop_last()) == Seq::<bool>::empty());
    assert(path_after(rest.drop_last()) == Seq::<bool>::empty());
    assert(path_before(rest) =~= path[0].before());
    assert(path_after(rest) =~= path[0].after());
}

/// The tree after the three splays that prepare an inner interval: the bit
/// behind the interval is at the root, and the bit in front of the interval
/// is either the root's left child, with the interval as its right subtree,
/// or the left child of that child, with nothing to its right.
pub open spec fn prepared(tree: BitRangeNode, first: int, last: int) -> bool {
    &&& tree.sound()
    &&& tree.separated() matches TreeF::Branch { val: w, left: m, right: r }
    &&& m.bits().len() == last + 1
    &&& m.separated() matches TreeF::Branch { val: lv, left: ll, right: lr }
    &&& {
        ||| ll.bits().len() == first - 1
        ||| {
            &&& ll.separated() matches TreeF::Branch { val: gv, left: gl, right: gr }
            &&& ll == branch(gv, gl, gr)
            &&& gl.bits().len() == first - 1
            &&& gr.bits().len() == 0
        }
    }
}

/// Where the bit at `first` was the root and the bit in front of it has been
/// brought to the root, the old root is the right child of the new one and
/// has nothing to its left.
proof fn lemma_old_root_right(one: BitRangeNode, two: BitRangeNode, first: int)
    requires
        0 < first < one.bits().len(),
        one.sound(),
        two.sound(),
        two.bits() == one.bits(),
        old_root_below(one, first - 1, two),
        one.separated() matches TreeF::Branch { val, left, right } && left.bits().len() == first,
        two.separated() matches TreeF::Branch { val, left, right } && left.bits().len() == first
            - 1,
    ensures
        two.separated()->left.sound(),
        two.separated()->left.count() == first - 1,
        two.separated()->right.sound(),
        two.separated()->right.separated() matches TreeF::Branch { val, left, right } && {
            &&& left.sound()
            &&& right.sound()
            &&& left.count() == 0
            &&& left.bits().len() == 0
        },
{
    let l1 = one.separated()->left;
    let r1 = one.separated()->right;
    one.separate_law();
    l1.lemma_count();
    r1.lemma_count();
    assert(l1.count() == first);
    assert(r1.bits().len() == one.bits().len() - first - 1);
    l1.separate_law();
    if l1.separated() is Branch {
        let cl = l1.separated()->left;
        cl.lemma_count();
        assert(cl.count() <= first - 1);
    }
    let x = two.separated()->left;
    let t = two.separated()->right;
    two.separate_law();
    x.lemma_count();
    t.lemma_count();
    assert(t.bits().len() == one.bits().len() - first);
    t.separate_law();
    assert(t.separated() is Branch);
    let tl = t.separated()->left;
    let tr = t.separated()->right;
    assert(tr == r1);
    assert(t.bits().len() == tl.bits().len() + 1 + tr.bits().len());
    assert(tl.bits().len() == 0);
    tl.lemma_count();
}

/// Where the bit in front of the interval was the root, with nothing to the
/// left of its right child, and the bit behind the interval has been brought
/// to the root, the tree is prepared.
proof fn lemma_old_root_left(two: BitRangeNode, three: BitRangeNode, first: int, last: int)
    requires
        0 < first <= last < two.bits().len() - 1,
        two.bits().len() <= i32::MAX,
        two.sound(),
        three.sound(),
        three.bits() == two.bits(),
        old_root_below(two, last + 1, three),
        two.separated() matches TreeF::Branch { val, left, right } && {
            &&& left.sound()
            &&& left.count() == first - 1
            &&& right.sound()
            &&& right.separated() matches TreeF::Branch { val: cv, left: cl, right: cr } && {
                &&& cl.sound()
                &&& cl.count() == 0
                &&& cl.bits().len() == 0
            }
        },
        three.separated() matches TreeF::Branch { val, left, right } && left.bits().len() == last
            + 1,
    ensures
        prepared(three, first, last),
{
    let v = two.separated()->val;
    let x = two.separated()->left;
    let t = two.separated()->right;
    let gr = t.separated()->left;
    x.lemma_count();
    let m = three.separated()->left;
    three.separate_law();
    m.separate_law();
    m.lemma_count();
    assert(x.count() < last + 1);
    assert(m.separated() is Branch);
    let ll = m.separated()->left;
    if ll == x {
        assert(ll.bits().len() == first - 1);
    } else {
        assert(ll == branch(v, x, gr));
        lemma_sub_branch(two.bits().len(), v, x, gr);
        assert(ll.separated() == (TreeF::Branch { val: v, left: x, right: gr }));
    }
}

/// Brings the bit at `first`, the bit in front of it and the bit behind
/// `last` to the root, one after the other.
fn prepare(root: BitRangeNode, first: i32, last: i32) -> (tree: BitRangeNode)
    requires
        root.sound(),
        0 < first <= last < root.bits().len() - 1,
    ensures
        tree == brought(brought(brought(root, first as int), first - 1), last + 1),
        tree.bits() == root.bits(),
        prepared(tree, first as int, last as int),
{
    let ghost bits = root.bits();
    proof {
        root.wf_fits();
    }
    let mut cur_root = root;
    cur_root = splay_index(cur_root, first);
    let ghost one = cur_root;
    cur_root = splay_index(cur_root, first - 1);
    let ghost two = cur_root;
    proof {
        lemma_old_root_right(one, two, first as int);
    }
    cur_root = splay_index(cur_root, last + 1);
    proof {
        lemma_old_root_left(two, cur_root, first as int, last as int);
    }
    cur_root
}

/// The zipper that `isolate_interval` builds. The whole sequence is the
/// root. An interval at the start of the sequence is the left subtree of the
/// root once the bit behind it is the root; an interval at its end is the
/// right subtree once the bit in front of it is the root. For any other
/// interval the bit at its start, the bit in front of it and the bit behind
/// it are brought to the root in turn; the interval is then the right
/// subtree of the bit in front of it, after one rotation where that subtree
/// is empty.
pub open spec fn isolated(root: BitRangeNode, first: int, last: int) -> Location<
    bool,
    BitRangeNode,
> {
    let none = Seq::<TreeZipperStep<bool, BitRangeNode>>::empty();
    if first <= 0 {
        if last >= root.count() - 1 {
            Location { path: none, here: root }
        } else {
            located(root, last + 1, none).splayed().child(Direction::Left)
        }
    } else if last >= root.count() - 1 {
        located(root, first - 1, none).splayed().child(Direction::Right)
    } else {
        let tree = brought(brought(brought(root, first), first - 1), last + 1);
        let down = located(tree, first - 1, none).child(Direction::Right);
        if down.layer() is Branch {
            down
        } else {
            down.parent().rotated().child(Direction::Right)
        }
    }
}

/// Isolates the positions `index_start` to `index_end`, both included, as
/// the focus of a zipper: the focus holds exactly these bits, the path
/// everything else. The tree is only rearranged, by splaying and by moving
/// the focus:
///
/// - the whole sequence is the root;
/// - an interval that starts the sequence is the left subtree of the root
///   once the bit behind it is the root;
/// - an interval that ends the sequence is the right subtree of the root
///   once the bit in front of it is the root;
/// - for any other interval the bit at its start, then the bit in front of
///   it, then the bit behind it are brought to the root. The bit in front is
///   then either a child of the root, with the interval as its right
///   subtree, or a grandchild with nothing to its right; one rotation makes
///   the second case the first.
pub fn isolate_interval(root: BitRangeNode, index_start: i32, index_end: i32) -> (interval:
    TreeZipper<bool, BitRangeNode>)
    requires
        root.sound(),
        0 <= index_start <= index_end < root.bits().len(),
    ensures
        interval@ == isolated(root, index_start as int, index_end as int),
        interval@.wf(),
        interval@.in_order() == root.bits(),
        path_before(interval@.path) == root.bits().subrange(0, index_start as int),
        interval@.here.bits() == root.bits().subrange(index_start as int, index_end + 1),
        path_after(interval@.path) == root.bits().subrange(
            index_end + 1,
            root.bits().len() as int,
        ),
{
    let ghost bits = root.bits();
    let mut cur_root = root;
    let size: i32 = get_size(&cur_root);
    proof {
        root.wf_fits();
    }
    if index_start <= 0 {
        if index_end >= size - 1 {
            let interval = root_zipper(cur_root);
            proof {
                assert(interval@.in_order() =~= bits);
                assert(bits.subrange(0, bits.len() as int) =~= bits);
            }
            interval
        } else {
            let top = splay(find_index(cur_root, index_end + 1));
            proof {
                lemma_focus_split(top@);
                lemma_child(top@, Direction::Left);
                top@.here.separate_law();
            }
            let interval = left_zipper(top);
            proof {
                assert(path_before(interval@.path) =~= Seq::<bool>::empty());
                lemma_cut(
                    bits,
                    path_before(interval@.path),
                    interval@.here.bits(),
                    path_after(interval@.path),
                );
            }
            interval
        }
    } else {
        if index_end >= size - 1 {
            let top = splay(find_index(cur_root, index_start - 1));
            proof {
                lemma_focus_split(top@);
                lemma_child(top@, Direction::Right);
                top@.here.separate_law();
            }
            let interval = right_zipper(top);
            proof {
                assert(path_after(interval@.path) =~= Seq::<bool>::empty());
                assert(path_before(interval@.path).len() == index_start);
                lemma_cut(
                    bits,
                    path_before(interval@.path),
                    interval@.here.bits(),
                    path_after(interval@.path),
                );
            }
            interval
        } else {
            cur_root = prepare(cur_root, index_start, index_end);
            let ghost tree = cur_root;
            let found = find_index(cur_root, index_start - 1);
            proof {
                lemma_at_front(tree, index_start as int, index_end as int);
            }
            let zipper = right_zipper(found);
            if BitRangeNode::is_branch(&zipper.here) {
                proof {
                    lemma_two_steps(zipper@.path);
                    lemma_cut(
                        bits,
                        path_before(zipper@.path),
                        zipper@.here.bits(),
                        path_after(zipper@.path),
                    );
                }
                zipper
            } else {
                let interval = right_zipper(rotate_zipper(parent_zipper(zipper)));
                proof {
                    lemma_two_steps(interval@.path);
                    lemma_cut(
                        bits,
                        path_before(interval@.path),
                        interval@.here.bits(),
                        path_after(interval@.path),
                    );
                }
                interval
            }
        }
    }
}

/// In a prepared tree the descent to the bit in front of the interval, one
/// step to the right, and where that ends on nothing one step up, a
/// rotation and one step to the right again, lead to the interval.
proof fn lemma_at_front(tree: BitRangeNode, first: int, last: int)
    requires
        prepared(tree, first, last),
        0 < first <= last,
        tree.bits().len() <= i32::MAX,
    ensures
        ({
            let down = located(tree, first - 1, Seq::empty()).child(Direction::Right);
            let turned = down.parent().rotated().child(Direction::Right);
            if down.here.separated() is Branch {
                &&& down.path.len() == 2
                &&& path_before(down.path).len() == first
                &&& down.here.bits().len() == last - first + 1
            } else {
                &&& turned.path.len() == 2
                &&& path_before(turned.path).len() == first
                &&& turned.here.bits().len() == last - first + 1
            }
        }),
{
    let none = Seq::<TreeZipperStep<bool, BitRangeNode>>::empty();
    let w = tree.separated()->val;
    let m = tree.separated()->left;
    let r = tree.separated()->right;
    let lv = m.separated()->val;
    let ll = m.separated()->left;
    let lr = m.separated()->right;
    tree.separate_law();
    m.separate_law();
    m.lemma_count();
    ll.lemma_count();
    lr.lemma_count();
    lemma_branch_iff_nonempty(lr);
    let s0 = TreeZipperStep { direction: Direction::Left, parent_val: w, sibling: r };
    let one = none.push(s0);
    assert(located(tree, first - 1, none) == located(m, first - 1, one));
    if ll.bits().len() == first - 1 {
        let at = Location { path: one, here: branch(lv, ll, lr) };
        assert(located(m, first - 1, one) == at);
        let down = at.child(Direction::Right);
        assert(down.here == lr);
        assert(down.path.len() == 2);
        assert(down.path[0] == s0);
        lemma_two_steps(down.path);
        assert(path_before(down.path) =~= ll.bits() + seq![lv]);
    } else {
        let gv = ll.separated()->val;
        let gl = ll.separated()->left;
        let gr = ll.separated()->right;
        ll.separate_law();
        gl.lemma_count();
        gr.lemma_count();
        lemma_branch_iff_nonempty(gr);
        let s1 = TreeZipperStep { direction: Direction::Left, parent_val: lv, sibling: lr };
        let two = one.push(s1);
        let at = Location { path: two, here: branch(gv, gl, gr) };
        assert(located(m, first - 1, one) == located(ll, first - 1, two));
        assert(located(ll, first - 1, two) == at);
        let down = at.child(Direction::Right);
        assert(down.here == gr);
        let up = down.parent();
        assert(down.path.drop_last() =~= two);
        assert(up.path == two);
        assert(up.here == branch(gv, gl, gr));
        let turned = up.rotated();
        assert(two.drop_last() =~= one);
        assert(two.last() == s1);
        assert(turned.path == one);
        assert(turned.here == branch(gv, gl, branch(lv, gr, lr)));
        let end = turned.child(Direction::Right);
        assert(end.here == branch(lv, gr, lr));
        assert(end.path.len() == 2);
        assert(end.path[0] == s0);
        lemma_two_steps(end.path);
        assert(path_before(end.path) =~= gl.bits() + seq![gv]);
        assert(end.here.bits() =~= gr.bits() + seq![lv] + lr.bits());
    }
}

} // verus!
