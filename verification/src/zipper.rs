//! Zippers: a focused subtree together with the path back to the root.

use vstd::prelude::*;
use crate::shape::{SequenceTree, TreeF};

verus! {

/// The side of its parent on which a focus hangs.
#[derive(Debug)]
pub enum Direction {
    Left,
    Right,
}

/// One step of a path: the side descended from the parent, the parent's
/// value and the subtree that was not descended into.
#[derive(Debug)]
pub struct TreeZipperStep<A, B> {
    pub direction: Direction,
    pub parent_val: A,
    pub sibling: B,
}

/// A location in a tree: the steps from the root down (the last step is the
/// one nearest to the focus) and the subtree in focus.
#[derive(Debug)]
pub struct TreeZipper<A, B> {
    pub path: Vec<TreeZipperStep<A, B>>,
    pub here: B,
}

/// The mathematical value of a zipper.
pub struct Location<A, B> {
    pub path: Seq<TreeZipperStep<A, B>>,
    pub here: B,
}

impl<A, B> View for TreeZipper<A, B> {
    type V = Location<A, B>;

    open spec fn view(&self) -> Location<A, B> {
        Location { path: self.path@, here: self.here }
    }
}

/// The node built from a value and two children.
pub open spec fn branch<A, B: SequenceTree<A>>(val: A, left: B, right: B) -> B {
    B::combined(TreeF::Branch { val: val, left: left, right: right })
}

/// The empty node as `combine` builds it.
pub open spec fn empty<A, B: SequenceTree<A>>() -> B {
    B::combined(TreeF::Empty)
}

impl<A, B: SequenceTree<A>> TreeZipperStep<A, B> {
    /// The parent rebuilt around `here`, which goes back to its own side.
    pub open spec fn above(self, here: B) -> B {
        match self.direction {
            Direction::Left => branch(self.parent_val, here, self.sibling),
            Direction::Right => branch(self.parent_val, self.sibling, here),
        }
    }

    /// What this step puts in front of the focus, in logical order.
    pub open spec fn before(self) -> Seq<A> {
        match self.direction {
            Direction::Left => Seq::empty(),
            Direction::Right => self.sibling.in_order() + seq![self.parent_val],
        }
    }

    /// What this step puts behind the focus, in logical order.
    pub open spec fn after(self) -> Seq<A> {
        match self.direction {
            Direction::Left => seq![self.parent_val] + self.sibling.in_order(),
            Direction::Right => Seq::empty(),
        }
    }
}

/// Everything that a path puts in front of the focus.
pub open spec fn path_before<A, B: SequenceTree<A>>(path: Seq<TreeZipperStep<A, B>>) -> Seq<A>
    decreases path.len(),
{
    if path.len() == 0 {
        Seq::empty()
    } else {
        path_before(path.drop_last()) + path.last().before()
    }
}

/// Everything that a path puts behind the focus.
pub open spec fn path_after<A, B: SequenceTree<A>>(path: Seq<TreeZipperStep<A, B>>) -> Seq<A>
    decreases path.len(),
{
    if path.len() == 0 {
        Seq::empty()
    } else {
        path.last().after() + path_after(path.drop_last())
    }
}

/// The sides to which the steps of a path went.
pub open spec fn turns<A, B>(path: Seq<TreeZipperStep<A, B>>) -> Seq<Direction> {
    path.map_values(|step: TreeZipperStep<A, B>| step.direction)
}

impl<A, B: SequenceTree<A>> Location<A, B> {
    /// The logical sequence of the whole tree that the zipper holds.
    pub open spec fn in_order(self) -> Seq<A> {
        path_before(self.path) + self.here.in_order() + path_after(self.path)
    }

    /// Every subtree that the zipper holds is well formed, and the whole
    /// tree fits in the node type.
    pub open spec fn wf(self) -> bool {
        &&& forall|k: int| 0 <= k < self.path.len() ==> (#[trigger] self.path[k]).sibling.wf()
        &&& self.here.wf()
        &&& B::fits(self.in_order().len())
    }

    /// The focus as one layer.
    pub open spec fn layer(self) -> TreeF<A, B> {
        self.here.separated()
    }

    /// Everything in front of the focused branch's own value.
    pub open spec fn front(self) -> Seq<A> {
        match self.layer() {
            TreeF::Empty => path_before(self.path),
            TreeF::Branch { val, left, right } => path_before(self.path) + left.in_order(),
        }
    }

    /// Everything behind the focused branch's own value.
    pub open spec fn back(self) -> Seq<A> {
        match self.layer() {
            TreeF::Empty => path_after(self.path),
            TreeF::Branch { val, left, right } => right.in_order() + path_after(self.path),
        }
    }

    /// One step up; the root stays where it is.
    pub open spec fn parent(self) -> Location<A, B> {
        if self.path.len() == 0 {
            self
        } else {
            Location { path: self.path.drop_last(), here: self.path.last().above(self.here) }
        }
    }

    /// The tree put together again.
    pub open spec fn zipped(self) -> B
        decreases self.path.len(),
    {
        if self.path.len() == 0 {
            self.here
        } else {
            self.parent().zipped()
        }
    }

    /// One step down to the given side; an empty focus stays empty.
    pub open spec fn child(self, direction: Direction) -> Location<A, B> {
        match self.layer() {
            TreeF::Empty => Location { path: self.path, here: empty() },
            TreeF::Branch { val, left, right } => match direction {
                Direction::Left => Location {
                    path: self.path.push(
                        TreeZipperStep {
                            direction: Direction::Left,
                            parent_val: val,
                            sibling: right,
                        },
                    ),
                    here: left,
                },
                Direction::Right => Location {
                    path: self.path.push(
                        TreeZipperStep {
                            direction: Direction::Right,
                            parent_val: val,
                            sibling: left,
                        },
                    ),
                    here: right,
                },
            },
        }
    }

    /// The focus taken apart and put together again, as a descent leaves it
    /// where it stops.
    pub open spec fn rebuilt(self) -> Location<A, B> {
        Location { path: self.path, here: B::combined(self.layer()) }
    }

    /// The zipper after one step down for each of the turns.
    pub open spec fn walked(self, turns: Seq<Direction>) -> Location<A, B>
        decreases turns.len(),
    {
        if turns.len() == 0 {
            self
        } else {
            self.walked(turns.drop_last()).child(turns.last())
        }
    }

    /// Whether the zipper is where a descent from the root of `root` along
    /// the turns of its own path stops: nothing but steps down has been done
    /// to the tree.
    pub open spec fn descent_of(self, root: B) -> bool {
        self == (Location { path: Seq::empty(), here: root }).walked(turns(self.path)).rebuilt()
    }

    /// The focus pulled above its parent by a single rotation.
    pub open spec fn rotated(self) -> Location<A, B> {
        match self.layer() {
            TreeF::Empty => Location { path: self.path, here: empty() },
            TreeF::Branch { val, left, right } => if self.path.len() == 0 {
                Location { path: self.path, here: branch(val, left, right) }
            } else {
                let up = self.path.last();
                Location {
                    path: self.path.drop_last(),
                    here: match up.direction {
                        Direction::Left => branch(
                            val,
                            left,
                            branch(up.parent_val, right, up.sibling),
                        ),
                        Direction::Right => branch(
                            val,
                            branch(up.parent_val, up.sibling, left),
                            right,
                        ),
                    },
                }
            },
        }
    }
}

/// A branch of well-formed children that fits is well formed, holds its
/// children's values around its own, and comes apart into what it was built
/// from.
pub proof fn lemma_branch<A, B: SequenceTree<A>>(val: A, left: B, right: B)
    requires
        left.wf(),
        right.wf(),
        B::fits(left.in_order().len() + 1 + right.in_order().len()),
    ensures
        B::can_combine(TreeF::Branch { val: val, left: left, right: right }),
        branch(val, left, right).wf(),
        branch(val, left, right).separated() == (TreeF::Branch {
            val: val,
            left: left,
            right: right,
        }),
        branch(val, left, right).in_order() == left.in_order() + seq![val] + right.in_order(),
{
    B::combine_law(TreeF::Branch { val: val, left: left, right: right });
    branch(val, left, right).separate_law();
}

/// As `lemma_branch`, for a branch that is part of a tree that fits.
pub proof fn lemma_sub_branch<A, B: SequenceTree<A>>(total: nat, val: A, left: B, right: B)
    requires
        left.wf(),
        right.wf(),
        B::fits(total),
        left.in_order().len() + 1 + right.in_order().len() <= total,
    ensures
        B::can_combine(TreeF::Branch { val: val, left: left, right: right }),
        branch(val, left, right).wf(),
        branch(val, left, right).separated() == (TreeF::Branch {
            val: val,
            left: left,
            right: right,
        }),
        branch(val, left, right).in_order() == left.in_order() + seq![val] + right.in_order(),
{
    B::fits_fewer(total, (left.in_order().len() + 1 + right.in_order().len()) as nat);
    lemma_branch(val, left, right);
}

/// The empty node is well formed and holds nothing.
pub proof fn lemma_empty<A, B: SequenceTree<A>>()
    ensures
        B::can_combine(TreeF::Empty),
        empty::<A, B>().wf(),
        empty::<A, B>().separated() == TreeF::<A, B>::Empty,
        empty::<A, B>().in_order() == Seq::<A>::empty(),
{
    B::combine_law(TreeF::Empty);
    empty::<A, B>().separate_law();
}

/// A well-formed node that holds nothing is empty, and a branch holds
/// at least its own value.
pub proof fn lemma_branch_iff_nonempty<A, B: SequenceTree<A>>(node: B)
    requires
        node.wf(),
    ensures
        (node.separated() is Branch) <==> node.in_order().len() > 0,
{
    node.separate_law();
}

/// Going up keeps the zipper well formed and the tree's contents in order.
pub proof fn lemma_parent<A, B: SequenceTree<A>>(loc: Location<A, B>)
    requires
        loc.wf(),
        loc.path.len() > 0,
    ensures
        B::can_combine(
            match loc.path.last().direction {
                Direction::Left => TreeF::Branch {
                    val: loc.path.last().parent_val,
                    left: loc.here,
                    right: loc.path.last().sibling,
                },
                Direction::Right => TreeF::Branch {
                    val: loc.path.last().parent_val,
                    left: loc.path.last().sibling,
                    right: loc.here,
                },
            },
        ),
        loc.parent().wf(),
        loc.parent().in_order() == loc.in_order(),
        loc.parent().layer() is Branch,
        loc.parent().layer()->val == loc.path.last().parent_val,
        match loc.path.last().direction {
            Direction::Left => {
                &&& loc.parent().front() == path_before(loc.path) + loc.here.in_order()
                &&& path_after(loc.path) == seq![loc.path.last().parent_val]
                    + loc.parent().back()
            },
            Direction::Right => {
                &&& path_before(loc.path) == loc.parent().front() + seq![
                    loc.path.last().parent_val,
                ]
                &&& loc.parent().back() == loc.here.in_order() + path_after(loc.path)
            },
        },
{
    let up = loc.path.last();
    let rest = loc.path.drop_last();
    assert(up.sibling.wf());
    let total = loc.in_order();
    assert(total.len() >= loc.here.in_order().len() + 1 + up.sibling.in_order().len());
    B::fits_fewer(
        total.len(),
        (loc.here.in_order().len() + 1 + up.sibling.in_order().len()) as nat,
    );
    match up.direction {
        Direction::Left => {
            lemma_branch(up.parent_val, loc.here, up.sibling);
        },
        Direction::Right => {
            lemma_branch(up.parent_val, up.sibling, loc.here);
        },
    }
    assert(loc.parent().in_order() =~= loc.in_order());
    assert forall|k: int| 0 <= k < rest.len() implies (#[trigger] rest[k]).sibling.wf() by {
        assert(rest[k] == loc.path[k]);
    }
    match up.direction {
        Direction::Left => {
            assert(loc.parent().front() =~= path_before(loc.path) + loc.here.in_order());
            assert(path_after(loc.path) =~= seq![up.parent_val] + loc.parent().back());
        },
        Direction::Right => {
            assert(path_before(loc.path) =~= loc.parent().front() + seq![up.parent_val]);
            assert(loc.parent().back() =~= loc.here.in_order() + path_after(loc.path));
        },
    }
}

/// Going up all the way yields a well-formed tree with the same contents.
pub proof fn lemma_zipped<A, B: SequenceTree<A>>(loc: Location<A, B>)
    requires
        loc.wf(),
    ensures
        loc.zipped().wf(),
        loc.zipped().in_order() == loc.in_order(),
    decreases loc.path.len(),
{
    if loc.path.len() == 0 {
        assert(loc.in_order() =~= loc.here.in_order());
    } else {
        lemma_parent(loc);
        lemma_zipped(loc.parent());
    }
}

/// The zipper at the root of a tree zips back to that very tree.
pub proof fn lemma_zip_of_root<A, B: SequenceTree<A>>(root: B)
    ensures
        (Location { path: Seq::<TreeZipperStep<A, B>>::empty(), here: root }).zipped() == root,
{
}

/// Going down keeps the zipper well formed and the tree's contents in order;
/// the new focus is the chosen child.
pub proof fn lemma_child<A, B: SequenceTree<A>>(loc: Location<A, B>, direction: Direction)
    requires
        loc.wf(),
    ensures
        B::can_combine(TreeF::Empty),
        loc.child(direction).wf(),
        loc.child(direction).in_order() == loc.in_order(),
        match loc.layer() {
            TreeF::Empty => {
                &&& path_before(loc.child(direction).path) == path_before(loc.path)
                &&& path_after(loc.child(direction).path) == path_after(loc.path)
                &&& loc.child(direction).here.in_order() == Seq::<A>::empty()
            },
            TreeF::Branch { val, left, right } => match direction {
                Direction::Left => {
                    &&& path_before(loc.child(direction).path) == path_before(loc.path)
                    &&& path_after(loc.child(direction).path) == seq![val] + right.in_order()
                        + path_after(loc.path)
                },
                Direction::Right => {
                    &&& path_before(loc.child(direction).path) == path_before(loc.path)
                        + left.in_order() + seq![val]
                    &&& path_after(loc.child(direction).path) == path_after(loc.path)
                },
            },
        },
{
    lemma_empty::<A, B>();
    loc.here.separate_law();
    let down = loc.child(direction);
    match loc.layer() {
        TreeF::Empty => {
            assert(down.in_order() =~= loc.in_order());
        },
        TreeF::Branch { val, left, right } => {
            assert(down.path.drop_last() =~= loc.path);
            assert(path_before(down.path) =~= path_before(loc.path) + down.path.last().before());
            assert(path_after(down.path) =~= down.path.last().after() + path_after(loc.path));
            assert(down.in_order() =~= loc.in_order());
            assert forall|k: int| 0 <= k < down.path.len() implies (
            #[trigger] down.path[k]).sibling.wf() by {
                if k < loc.path.len() {
                    assert(down.path[k] == loc.path[k]);
                }
            }
            match direction {
                Direction::Left => {
                    assert(path_before(down.path) =~= path_before(loc.path));
                    assert(path_after(down.path) =~= seq![val] + right.in_order() + path_after(
                        loc.path,
                    ));
                },
                Direction::Right => {
                    assert(path_before(down.path) =~= path_before(loc.path) + left.in_order()
                        + seq![val]);
                    assert(path_after(down.path) =~= path_after(loc.path));
                },
            }
        },
    }
}

/// A rotation keeps the zipper well formed, the tree's contents in order and
/// the focused value in focus.
pub proof fn lemma_rotated<A, B: SequenceTree<A>>(loc: Location<A, B>)
    requires
        loc.wf(),
    ensures
        loc.rotated().wf(),
        loc.rotated().in_order() == loc.in_order(),
        loc.layer() is Branch ==> {
            &&& loc.rotated().layer() is Branch
            &&& loc.rotated().layer()->val == loc.layer()->val
            &&& loc.rotated().front() == loc.front()
            &&& loc.rotated().back() == loc.back()
        },
{
    lemma_empty::<A, B>();
    loc.here.separate_law();
    let total = loc.in_order().len();
    match loc.layer() {
        TreeF::Empty => {
            assert(loc.rotated().in_order() =~= loc.in_order());
        },
        TreeF::Branch { val, left, right } => {
            if loc.path.len() == 0 {
                lemma_sub_branch(total, val, left, right);
                assert(loc.rotated().in_order() =~= loc.in_order());
            } else {
                let up = loc.path.last();
                let rest = loc.path.drop_last();
                assert(up.sibling.wf());
                assert forall|k: int| 0 <= k < rest.len() implies (#[trigger] rest[k]).sibling.wf() by {
                    assert(rest[k] == loc.path[k]);
                }
                match up.direction {
                    Direction::Left => {
                        lemma_sub_branch(total, up.parent_val, right, up.sibling);
                        lemma_sub_branch(
                            total,
                            val,
                            left,
                            branch(up.parent_val, right, up.sibling),
                        );
                    },
                    Direction::Right => {
                        lemma_sub_branch(total, up.parent_val, up.sibling, left);
                        lemma_sub_branch(
                            total,
                            val,
                            branch(up.parent_val, up.sibling, left),
                            right,
                        );
                    },
                }
                assert(loc.rotated().in_order() =~= loc.in_order());
                assert(loc.rotated().front() =~= loc.front());
                assert(loc.rotated().back() =~= loc.back());
            }
        },
    }
}

/// Around a focused branch the tree holds what is in front of the branch's
/// value, the value, and what is behind it.
pub proof fn lemma_focus_split<A, B: SequenceTree<A>>(loc: Location<A, B>)
    requires
        loc.here.wf(),
        loc.layer() is Branch,
    ensures
        loc.in_order() == loc.front() + seq![loc.layer()->val] + loc.back(),
        loc.in_order().len() == loc.front().len() + 1 + loc.back().len(),
        loc.in_order()[loc.front().len() as int] == loc.layer()->val,
{
    loc.here.separate_law();
    assert(loc.in_order() =~= loc.front() + seq![loc.layer()->val] + loc.back());
}

/// One more step down is one more turn of the walk.
pub proof fn lemma_walked_on<A, B: SequenceTree<A>>(
    start: Location<A, B>,
    loc: Location<A, B>,
    direction: Direction,
)
    requires
        loc == start.walked(turns(loc.path)),
        loc.layer() is Branch,
    ensures
        loc.child(direction) == start.walked(turns(loc.child(direction).path)),
{
    let down = loc.child(direction);
    assert(down.path.last().direction == direction);
    assert(down.path.drop_last() =~= loc.path);
    assert(turns(down.path).drop_last() =~= turns(loc.path));
    assert(turns(down.path).last() == direction);
}

/// A zipper at the root of a tree.
pub fn root_zipper<A, B>(root: B) -> (zipper: TreeZipper<A, B>)
    ensures
        zipper@.path == Seq::<TreeZipperStep<A, B>>::empty(),
        zipper@.here == root,
{
    let path = Vec::new();
    TreeZipper { path: path, here: root }
}

/// Moves the focus to its parent; at the root nothing changes.
pub fn parent_zipper<A, B: SequenceTree<A>>(zipper: TreeZipper<A, B>) -> (up: TreeZipper<A, B>)
    requires
        zipper@.wf(),
    ensures
        up@ == zipper@.parent(),
        up@.wf(),
        up@.in_order() == zipper@.in_order(),
{
    let ghost loc = zipper@;
    let mut path = zipper.path;
    match path.pop() {
        None => TreeZipper { path: path, here: zipper.here },
        Some(TreeZipperStep { direction, parent_val, sibling }) => {
            proof {
                lemma_parent(loc);
            }
            match direction {
                Direction::Left => TreeZipper {
                    path: path,
                    here: B::combine(
                        TreeF::Branch { val: parent_val, left: zipper.here, right: sibling },
                    ),
                },
                Direction::Right => TreeZipper {
                    path: path,
                    here: B::combine(
                        TreeF::Branch { val: parent_val, left: sibling, right: zipper.here },
                    ),
                },
            }
        },
    }
}

/// Puts the tree together again: goes up until the path is used up.
pub fn zip_tree<A, B: SequenceTree<A>>(zipper: TreeZipper<A, B>) -> (root: B)
    requires
        zipper@.wf(),
    ensures
        root == zipper@.zipped(),
        root.wf(),
        root.in_order() == zipper@.in_order(),
{
    let ghost start = zipper@;
    let mut path = zipper.path;
    let mut node = zipper.here;
    proof {
        lemma_zipped(start);
    }
    loop
        invariant
            (Location { path: path@, here: node }).wf(),
            (Location { path: path@, here: node }).zipped() == start.zipped(),
        ensures
            node == start.zipped(),
        decreases path@.len(),
    {
        let ghost loc = Location { path: path@, here: node };
        match path.pop() {
            None => {
                break ;
            },
            Some(TreeZipperStep { direction, parent_val, sibling }) => {
                proof {
                    lemma_parent(loc);
                }
                match direction {
                    Direction::Left => {
                        node = B::combine(
                            TreeF::Branch { val: parent_val, left: node, right: sibling },
                        );
                    },
                    Direction::Right => {
                        node = B::combine(
                            TreeF::Branch { val: parent_val, left: sibling, right: node },
                        );
                    },
                }
            },
        }
    }
    node
}

/// Moves the focus to its left child; an empty focus stays empty.
pub fn left_zipper<A, B: SequenceTree<A>>(zipper: TreeZipper<A, B>) -> (down: TreeZipper<A, B>)
    requires
        zipper@.wf(),
    ensures
        down@ == zipper@.child(Direction::Left),
        down@.wf(),
        down@.in_order() == zipper@.in_order(),
{
    proof {
        lemma_child(zipper@, Direction::Left);
    }
    let mut path = zipper.path;
    let mut node = zipper.here;
    match B::separate(node) {
        TreeF::Empty => {
            node = B::combine(TreeF::Empty);
        },
        TreeF::Branch { val, left, right } => {
            path.push(
                TreeZipperStep { direction: Direction::Left, parent_val: val, sibling: right },
            );
            node = left;
        },
    }
    TreeZipper { path: path, here: node }
}

/// Moves the focus to its right child; an empty focus stays empty.
pub fn right_zipper<A, B: SequenceTree<A>>(zipper: TreeZipper<A, B>) -> (down: TreeZipper<A, B>)
    requires
        zipper@.wf(),
    ensures
        down@ == zipper@.child(Direction::Right),
        down@.wf(),
        down@.in_order() == zipper@.in_order(),
{
    proof {
        lemma_child(zipper@, Direction::Right);
    }
    let mut path = zipper.path;
    let mut node = zipper.here;
    match B::separate(node) {
        TreeF::Empty => {
            node = B::combine(TreeF::Empty);
        },
        TreeF::Branch { val, left, right } => {
            path.push(
                TreeZipperStep { direction: Direction::Right, parent_val: val, sibling: left },
            );
            node = right;
        },
    }
    TreeZipper { path: path, here: node }
}

/// Pulls the focus above its parent by a single rotation. At the root, or on
/// an empty focus, only the focus is rebuilt.
pub fn rotate_zipper<A, B: SequenceTree<A>>(zipper: TreeZipper<A, B>) -> (turned: TreeZipper<A, B>)
    requires
        zipper@.wf(),
    ensures
        turned@ == zipper@.rotated(),
        turned@.wf(),
        turned@.in_order() == zipper@.in_order(),
{
    let ghost loc = zipper@;
    let ghost total = loc.in_order().len();
    proof {
        lemma_rotated(loc);
        lemma_empty::<A, B>();
        loc.here.separate_law();
    }
    let mut path = zipper.path;
    let mut node = zipper.here;
    match B::separate(node) {
        TreeF::Empty => {
            node = B::combine(TreeF::Empty);
        },
        TreeF::Branch { val, left, right } => {
            if let Some(TreeZipperStep { direction, parent_val, sibling }) = path.pop() {
                proof {
                    assert(loc.path.last().sibling.wf());
                }
                match direction {
                    Direction::Left => {
                        proof {
                            lemma_sub_branch(total, parent_val, right, sibling);
                            lemma_sub_branch(total, val, left, branch(parent_val, right, sibling));
                        }
                        node = B::combine(
                            TreeF::Branch {
                                val: val,
                                left: left,
                                right: B::combine(
                                    TreeF::Branch { val: parent_val, left: right, right: sibling },
                                ),
                            },
                        );
                    },
                    Direction::Right => {
                        proof {
                            lemma_sub_branch(total, parent_val, sibling, left);
                            lemma_sub_branch(total, val, branch(parent_val, sibling, left), right);
                        }
                        node = B::combine(
                            TreeF::Branch {
                                val: val,
                                left: B::combine(
                                    TreeF::Branch { val: parent_val, left: sibling, right: left },
                                ),
                                right: right,
                            },
                        );
                    },
                }
            } else {
                proof {
                    lemma_sub_branch(total, val, left, right);
                }
                node = B::combine(TreeF::Branch { val: val, left: left, right: right });
            }
        },
    }
    TreeZipper { path: path, here: node }
}

/// Descends to the right until the tree ends: the focus is the empty place
/// behind the last value.
pub fn end<A, B: SequenceTree<A>>(root: B) -> (last: TreeZipper<A, B>)
    requires
        root.wf(),
    ensures
        last@.wf(),
        last@.in_order() == root.in_order(),
        last@.here == empty::<A, B>(),
        last@.descent_of(root),
        path_before(last@.path) == root.in_order(),
        path_after(last@.path) == Seq::<A>::empty(),
        forall|k: int| 0 <= k < last@.path.len() ==> (#[trigger] last@.path[k]).direction is Right,
{
    let mut node = root;
    let mut path: Vec<TreeZipperStep<A, B>> = Vec::new();
    let ghost start = Location { path: Seq::<TreeZipperStep<A, B>>::empty(), here: root };
    proof {
        root.wf_fits();
        assert((Location { path: path@, here: node }).in_order() =~= root.in_order());
        assert(turns(path@) =~= Seq::<Direction>::empty());
    }
    loop
        invariant_except_break
            (Location { path: path@, here: node }) == start.walked(turns(path@)),
        invariant
            start == (Location { path: Seq::<TreeZipperStep<A, B>>::empty(), here: root }),
            (Location { path: path@, here: node }).wf(),
            (Location { path: path@, here: node }).in_order() == root.in_order(),
            path_after(path@) == Seq::<A>::empty(),
            forall|k: int| 0 <= k < path@.len() ==> (#[trigger] path@[k]).direction is Right,
        ensures
            (Location { path: path@, here: node }) == start.walked(turns(path@)).rebuilt(),
            (Location { path: path@, here: node }).wf(),
            (Location { path: path@, here: node }).in_order() == root.in_order(),
            path_after(path@) == Seq::<A>::empty(),
            forall|k: int| 0 <= k < path@.len() ==> (#[trigger] path@[k]).direction is Right,
            node == empty::<A, B>(),
        decreases node.in_order().len(),
    {
        let ghost loc = Location { path: path@, here: node };
        proof {
            lemma_child(loc, Direction::Right);
            node.separate_law();
            if loc.layer() is Branch {
                lemma_walked_on(start, loc, Direction::Right);
            }
        }
        match B::separate(node) {
            TreeF::Empty => {
                node = B::combine(TreeF::Empty);
                break ;
            },
            TreeF::Branch { val, left, right } => {
                path.push(
                    TreeZipperStep { direction: Direction::Right, parent_val: val, sibling: left },
                );
                node = right;
            },
        }
    }
    proof {
        lemma_empty::<A, B>();
        assert(path_before(path@) =~= root.in_order());
    }
    TreeZipper { here: node, path: path }
}

} // verus!
