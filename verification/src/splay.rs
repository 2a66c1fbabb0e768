//! Splaying: the focus of a zipper is moved to the root by zig, zig-zig and
//! zig-zag steps.

use vstd::prelude::*;
use crate::shape::{SequenceTree, TreeF};
use crate::zipper::{
    branch, empty, lemma_empty, lemma_parent, lemma_sub_branch, parent_zipper, path_after,
    path_before, Direction, Location, TreeZipper, TreeZipperStep,
};

verus! {

/// The focus `Branch(val, left, right)` rotated above its parent `p`.
pub open spec fn zig<A, B: SequenceTree<A>>(
    val: A,
    left: B,
    right: B,
    p: TreeZipperStep<A, B>,
) -> B {
    match p.direction {
        Direction::Left => branch(val, left, branch(p.parent_val, right, p.sibling)),
        Direction::Right => branch(val, branch(p.parent_val, p.sibling, left), right),
    }
}

/// The focus `Branch(val, left, right)` raised above its parent `p` and its
/// grandparent `g`. Where both steps went to the same side the grandparent
/// ends below the parent (zig-zig); otherwise parent and grandparent become
/// the two children of the focus (zig-zag).
pub open spec fn zig_zig_zag<A, B: SequenceTree<A>>(
    val: A,
    left: B,
    right: B,
    p: TreeZipperStep<A, B>,
    g: TreeZipperStep<A, B>,
) -> B {
    match (p.direction, g.direction) {
        (Direction::Left, Direction::Left) => branch(
            val,
            left,
            branch(p.parent_val, right, branch(g.parent_val, p.sibling, g.sibling)),
        ),
        (Direction::Left, Direction::Right) => branch(
            val,
            branch(g.parent_val, g.sibling, left),
            branch(p.parent_val, right, p.sibling),
        ),
        (Direction::Right, Direction::Left) => branch(
            val,
            branch(p.parent_val, p.sibling, left),
            branch(g.parent_val, right, g.sibling),
        ),
        (Direction::Right, Direction::Right) => branch(
            val,
            branch(p.parent_val, branch(g.parent_val, g.sibling, p.sibling), left),
            right,
        ),
    }
}

impl<A, B: SequenceTree<A>> Location<A, B> {
    /// One splay step: zig with a parent and no grandparent, zig-zig or
    /// zig-zag with a grandparent. At the root, or on an empty focus, only
    /// the focus is rebuilt.
    pub open spec fn stepped(self) -> Location<A, B> {
        match self.layer() {
            TreeF::Empty => Location { path: self.path, here: empty() },
            TreeF::Branch { val, left, right } => if self.path.len() == 0 {
                Location { path: self.path, here: branch(val, left, right) }
            } else if self.path.len() == 1 {
                Location { path: self.path.drop_last(), here: zig(val, left, right, self.path.last()) }
            } else {
                Location {
                    path: self.path.drop_last().drop_last(),
                    here: zig_zig_zag(
                        val,
                        left,
                        right,
                        self.path.last(),
                        self.path[self.path.len() - 2],
                    ),
                }
            },
        }
    }

    /// Splay steps until the focused branch is the root.
    pub open spec fn risen(self) -> Location<A, B>
        decreases self.path.len(),
    {
        if self.path.len() == 0 || !(self.layer() is Branch) {
            self
        } else {
            self.stepped().risen()
        }
    }

    /// The zipper whose focus a splay raises: an empty focus below the root
    /// gives way to its parent, the last branch on the way down.
    pub open spec fn raised(self) -> Location<A, B> {
        if self.layer() is Branch {
            self
        } else {
            self.parent()
        }
    }

    /// The zipper after splaying. A zipper at the root is left as it is.
    pub open spec fn splayed(self) -> Location<A, B> {
        if self.path.len() == 0 {
            self
        } else {
            self.raised().risen()
        }
    }
}

/// With one step above the focus, the tree holds at least the focus, the
/// parent's value and the sibling.
pub proof fn lemma_room_one<A, B: SequenceTree<A>>(loc: Location<A, B>)
    requires
        loc.wf(),
        loc.path.len() >= 1,
    ensures
        loc.path.last().sibling.wf(),
        loc.in_order().len() >= loc.here.in_order().len() + 1
            + loc.path.last().sibling.in_order().len(),
        path_before(loc.path) == path_before(loc.path.drop_last()) + loc.path.last().before(),
        path_after(loc.path) == loc.path.last().after() + path_after(loc.path.drop_last()),
{
}

/// With two steps above the focus, the tree holds at least the focus, the
/// values of parent and grandparent, and their siblings.
pub proof fn lemma_room_two<A, B: SequenceTree<A>>(loc: Location<A, B>)
    requires
        loc.wf(),
        loc.path.len() >= 2,
    ensures
        loc.path.last().sibling.wf(),
        loc.path[loc.path.len() - 2].sibling.wf(),
        loc.in_order().len() >= loc.here.in_order().len() + 1
            + loc.path.last().sibling.in_order().len() + 1 + loc.path[loc.path.len()
            - 2].sibling.in_order().len(),
        path_before(loc.path) == path_before(loc.path.drop_last().drop_last()) + loc.path[
            loc.path.len() - 2].before() + loc.path.last().before(),
        path_after(loc.path) == loc.path.last().after() + loc.path[loc.path.len() - 2].after()
            + path_after(loc.path.drop_last().drop_last()),
{
    let rest = loc.path.drop_last();
    assert(rest.last() == loc.path[loc.path.len() - 2]);
    assert(path_before(loc.path) == path_before(rest) + loc.path.last().before());
    assert(path_after(loc.path) == loc.path.last().after() + path_after(rest));
    assert(path_before(rest) == path_before(rest.drop_last()) + rest.last().before());
    assert(path_after(rest) == rest.last().after() + path_after(rest.drop_last()));
    assert(path_after(loc.path) =~= loc.path.last().after() + loc.path[loc.path.len()
        - 2].after() + path_after(rest.drop_last()));
}

/// What a zig builds: a well-formed branch with the focused value, which
/// holds the parent's share on the side away from which the focus came.
pub proof fn lemma_zig<A, B: SequenceTree<A>>(
    total: nat,
    val: A,
    left: B,
    right: B,
    p: TreeZipperStep<A, B>,
)
    requires
        left.wf(),
        right.wf(),
        p.sibling.wf(),
        B::fits(total),
        left.in_order().len() + 1 + right.in_order().len() + 1 + p.sibling.in_order().len()
            <= total,
    ensures
        zig(val, left, right, p).wf(),
        zig(val, left, right, p).separated() is Branch,
        zig(val, left, right, p).separated()->val == val,
        zig(val, left, right, p).separated()->left.in_order() == p.before() + left.in_order(),
        zig(val, left, right, p).separated()->right.in_order() == right.in_order() + p.after(),
{
    let up = zig(val, left, right, p);
    match p.direction {
        Direction::Left => {
            lemma_sub_branch(total, p.parent_val, right, p.sibling);
            lemma_sub_branch(total, val, left, branch(p.parent_val, right, p.sibling));
        },
        Direction::Right => {
            lemma_sub_branch(total, p.parent_val, p.sibling, left);
            lemma_sub_branch(total, val, branch(p.parent_val, p.sibling, left), right);
        },
    }
    assert(up.separated()->left.in_order() =~= p.before() + left.in_order());
    assert(up.separated()->right.in_order() =~= right.in_order() + p.after());
}

/// What a zig-zig or zig-zag builds: a well-formed branch with the focused
/// value, which holds the shares of parent and grandparent on the sides away
/// from which the focus came.
pub proof fn lemma_zig_zig_zag<A, B: SequenceTree<A>>(
    total: nat,
    val: A,
    left: B,
    right: B,
    p: TreeZipperStep<A, B>,
    g: TreeZipperStep<A, B>,
)
    requires
        left.wf(),
        right.wf(),
        p.sibling.wf(),
        g.sibling.wf(),
        B::fits(total),
        left.in_order().len() + 1 + right.in_order().len() + 1 + p.sibling.in_order().len() + 1
            + g.sibling.in_order().len() <= total,
    ensures
        zig_zig_zag(val, left, right, p, g).wf(),
        zig_zig_zag(val, left, right, p, g).separated() is Branch,
        zig_zig_zag(val, left, right, p, g).separated()->val == val,
        zig_zig_zag(val, left, right, p, g).separated()->left.in_order() == g.before()
            + p.before() + left.in_order(),
        zig_zig_zag(val, left, right, p, g).separated()->right.in_order() == right.in_order()
            + p.after() + g.after(),
{
    let up = zig_zig_zag(val, left, right, p, g);
    match (p.direction, g.direction) {
        (Direction::Left, Direction::Left) => {
            lemma_sub_branch(total, g.parent_val, p.sibling, g.sibling);
            let low = branch(g.parent_val, p.sibling, g.sibling);
            lemma_sub_branch(total, p.parent_val, right, low);
            lemma_sub_branch(total, val, left, branch(p.parent_val, right, low));
        },
        (Direction::Left, Direction::Right) => {
            lemma_sub_branch(total, g.parent_val, g.sibling, left);
            lemma_sub_branch(total, p.parent_val, right, p.sibling);
            lemma_sub_branch(
                total,
                val,
                branch(g.parent_val, g.sibling, left),
                branch(p.parent_val, right, p.sibling),
            );
        },
        (Direction::Right, Direction::Left) => {
            lemma_sub_branch(total, p.parent_val, p.sibling, left);
            lemma_sub_branch(total, g.parent_val, right, g.sibling);
            lemma_sub_branch(
                total,
                val,
                branch(p.parent_val, p.sibling, left),
                branch(g.parent_val, right, g.sibling),
            );
        },
        (Direction::Right, Direction::Right) => {
            lemma_sub_branch(total, g.parent_val, g.sibling, p.sibling);
            let low = branch(g.parent_val, g.sibling, p.sibling);
            lemma_sub_branch(total, p.parent_val, low, left);
            lemma_sub_branch(total, val, branch(p.parent_val, low, left), right);
        },
    }
    assert(up.separated()->left.in_order() =~= g.before() + p.before() + left.in_order());
    assert(up.separated()->right.in_order() =~= right.in_order() + p.after() + g.after());
}

/// The zig step on a zipper.
proof fn lemma_stepped_zig<A, B: SequenceTree<A>>(loc: Location<A, B>)
    requires
        loc.wf(),
        loc.layer() is Branch,
        loc.path.len() == 1,
    ensures
        loc.stepped().wf(),
        loc.stepped().in_order() == loc.in_order(),
        loc.stepped().path.len() == 0,
        loc.stepped().layer() is Branch,
        loc.stepped().layer()->val == loc.layer()->val,
        loc.stepped().front() == loc.front(),
        loc.stepped().back() == loc.back(),
{
    loc.here.separate_law();
    let next = loc.stepped();
    let total = loc.in_order().len();
    let val = loc.layer()->val;
    let left = loc.layer()->left;
    let right = loc.layer()->right;
    let p = loc.path.last();
    lemma_room_one(loc);
    lemma_zig(total, val, left, right, p);
    let up = zig(val, left, right, p);
    assert(next.here == up);
    up.separate_law();
    assert(path_before(next.path) == Seq::<A>::empty());
    assert(path_after(next.path) == Seq::<A>::empty());
    assert(path_before(loc.path) =~= p.before());
    assert(path_after(loc.path) =~= p.after());
    assert(next.front() =~= loc.front());
    assert(next.back() =~= loc.back());
    assert(next.in_order() =~= next.front() + seq![val] + next.back());
    assert(loc.in_order() =~= loc.front() + seq![val] + loc.back());
}

/// The zig-zig or zig-zag step on a zipper.
proof fn lemma_stepped_double<A, B: SequenceTree<A>>(loc: Location<A, B>)
    requires
        loc.wf(),
        loc.layer() is Branch,
        loc.path.len() >= 2,
    ensures
        loc.stepped().wf(),
        loc.stepped().in_order() == loc.in_order(),
        loc.stepped().path.len() == loc.path.len() - 2,
        loc.stepped().layer() is Branch,
        loc.stepped().layer()->val == loc.layer()->val,
        loc.stepped().front() == loc.front(),
        loc.stepped().back() == loc.back(),
{
    loc.here.separate_law();
    let next = loc.stepped();
    let total = loc.in_order().len();
    let val = loc.layer()->val;
    let left = loc.layer()->left;
    let right = loc.layer()->right;
    let p = loc.path.last();
    let g = loc.path[loc.path.len() - 2];
    let above = loc.path.drop_last().drop_last();
    lemma_room_two(loc);
    lemma_zig_zig_zag(total, val, left, right, p, g);
    let up = zig_zig_zag(val, left, right, p, g);
    assert(next.here == up);
    assert(next.path == above);
    up.separate_law();
    assert forall|k: int| 0 <= k < above.len() implies (#[trigger] above[k]).sibling.wf() by {
        assert(above[k] == loc.path[k]);
    }
    let a = path_before(above);
    let z = path_after(above);
    assert(next.front() == a + up.separated()->left.in_order());
    assert(loc.front() == (a + g.before() + p.before()) + left.in_order());
    assert(next.front() =~= loc.front());
    assert(next.back() == up.separated()->right.in_order() + z);
    assert(loc.back() == right.in_order() + (p.after() + g.after() + z));
    assert(next.back() =~= loc.back());
    assert(next.in_order() =~= next.front() + seq![val] + next.back());
    assert(loc.in_order() =~= loc.front() + seq![val] + loc.back());
}

/// A splay step keeps the zipper well formed and the tree's contents in
/// order. A focused branch stays in focus, with the same values in front of
/// it and behind it, and below the root it rises by one or two levels.
pub proof fn lemma_stepped<A, B: SequenceTree<A>>(loc: Location<A, B>)
    requires
        loc.wf(),
    ensures
        loc.stepped().wf(),
        loc.stepped().in_order() == loc.in_order(),
        loc.stepped().path.len() <= loc.path.len(),
        loc.layer() is Branch ==> {
            &&& loc.stepped().layer() is Branch
            &&& loc.stepped().layer()->val == loc.layer()->val
            &&& loc.stepped().front() == loc.front()
            &&& loc.stepped().back() == loc.back()
            &&& loc.path.len() > 0 ==> loc.stepped().path.len() < loc.path.len()
        },
{
    if !(loc.layer() is Branch) {
        lemma_empty::<A, B>();
        loc.here.separate_law();
        assert(loc.stepped().in_order() =~= loc.in_order());
    } else if loc.path.len() == 0 {
        loc.here.separate_law();
        lemma_sub_branch(
            loc.in_order().len(),
            loc.layer()->val,
            loc.layer()->left,
            loc.layer()->right,
        );
        assert(loc.stepped().in_order() =~= loc.in_order());
    } else if loc.path.len() == 1 {
        lemma_stepped_zig(loc);
    } else {
        lemma_stepped_double(loc);
    }
}

impl<A, B: SequenceTree<A>> Location<A, B> {
    /// The zipper on which the last splay step is made: splay steps are
    /// taken while more than two steps lead to the focus.
    pub open spec fn before_last(self) -> Location<A, B>
        decreases self.path.len(),
    {
        if self.path.len() <= 2 || !(self.layer() is Branch) {
            self
        } else {
            self.stepped().before_last()
        }
    }
}

/// Splaying uses the path up from its far end, so the last splay step is made
/// with what were the first one or two steps of the path: a zig where the
/// path had an odd number of steps, a zig-zig or zig-zag where it was even.
pub proof fn lemma_before_last<A, B: SequenceTree<A>>(loc: Location<A, B>)
    requires
        loc.wf(),
        loc.layer() is Branch,
        loc.path.len() >= 1,
    ensures
        loc.risen() == loc.before_last().stepped(),
        loc.before_last().wf(),
        loc.before_last().layer() is Branch,
        1 <= loc.before_last().path.len() <= 2,
        loc.before_last().path.len() % 2 == loc.path.len() % 2,
        loc.before_last().path == loc.path.subrange(0, loc.before_last().path.len() as int),
        loc.before_last().layer()->val == loc.layer()->val,
        loc.before_last().front() == loc.front(),
        loc.before_last().back() == loc.back(),
        loc.before_last().in_order() == loc.in_order(),
    decreases loc.path.len(),
{
    lemma_stepped(loc);
    if loc.path.len() <= 2 {
        let next = loc.stepped();
        assert(next.path.len() == 0);
        assert(loc.risen() == next.risen());
        assert(loc.path.subrange(0, loc.path.len() as int) =~= loc.path);
    } else {
        let next = loc.stepped();
        assert(next.path == loc.path.drop_last().drop_last());
        lemma_before_last(next);
        let pre = next.before_last();
        assert(pre.path =~= loc.path.subrange(0, pre.path.len() as int));
    }
}

/// One splay step on the focus: zig below the root, zig-zig or zig-zag with
/// a grandparent. One or two steps of the path are used up.
pub fn splay_step<A, B: SequenceTree<A>>(zipper: TreeZipper<A, B>) -> (risen: TreeZipper<A, B>)
    requires
        zipper@.wf(),
    ensures
        risen@ == zipper@.stepped(),
        risen@.wf(),
        risen@.in_order() == zipper@.in_order(),
        risen@.path.len() <= zipper@.path.len(),
        zipper@.layer() is Branch ==> {
            &&& risen@.layer() is Branch
            &&& risen@.layer()->val == zipper@.layer()->val
            &&& risen@.front() == zipper@.front()
            &&& risen@.back() == zipper@.back()
            &&& zipper@.path.len() > 0 ==> risen@.path.len() < zipper@.path.len()
        },
{
    let ghost loc = zipper@;
    let ghost total = loc.in_order().len();
    proof {
        lemma_stepped(loc);
        lemma_empty::<A, B>();
        loc.here.separate_law();
    }
    let mut path = zipper.path;
    match B::separate(zipper.here) {
        TreeF::Empty => TreeZipper { path: path, here: B::combine(TreeF::Empty) },
        TreeF::Branch { val, left, right } => {
            match path.pop() {
                None => {
                    proof {
                        lemma_sub_branch(total, val, left, right);
                    }
                    TreeZipper {
                        path: path,
                        here: B::combine(TreeF::Branch { val: val, left: left, right: right }),
                    }
                },
                Some(TreeZipperStep { direction, parent_val, sibling }) => {
                    proof {
                        lemma_room_one(loc);
                    }
                    match path.pop() {
                        None => {
                            match direction {
                                Direction::Left => {
                                    proof {
                                        lemma_sub_branch(total, parent_val, right, sibling);
                                        lemma_sub_branch(
                                            total,
                                            val,
                                            left,
                                            branch(parent_val, right, sibling),
                                        );
                                    }
                                    TreeZipper {
                                        path: path,
                                        here: B::combine(
                                            TreeF::Branch {
                                                val: val,
                                                left: left,
                                                right: B::combine(
                                                    TreeF::Branch {
                                                        val: parent_val,
                                                        left: right,
                                                        right: sibling,
                                                    },
                                                ),
                                            },
                                        ),
                                    }
                                },
                                Direction::Right => {
                                    proof {
                                        lemma_sub_branch(total, parent_val, sibling, left);
                                        lemma_sub_branch(
                                            total,
                                            val,
                                            branch(parent_val, sibling, left),
                                            right,
                                        );
                                    }
                                    TreeZipper {
                                        path: path,
                                        here: B::combine(
                                            TreeF::Branch {
                                                val: val,
                                                left: B::combine(
                                                    TreeF::Branch {
                                                        val: parent_val,
                                                        left: sibling,
                                                        right: left,
                                                    },
                                                ),
                                                right: right,
                                            },
                                        ),
                                    }
                                },
                            }
                        },
                        Some(
                            TreeZipperStep {
                                direction: parent_dir,
                                parent_val: grandparent_val,
                                sibling: uncle,
                            },
                        ) => {
                            proof {
                                lemma_room_two(loc);
                            }
                            match (direction, parent_dir) {
                                (Direction::Left, Direction::Left) => {
                                    proof {
                                        let low = branch(grandparent_val, sibling, uncle);
                                        lemma_sub_branch(total, grandparent_val, sibling, uncle);
                                        lemma_sub_branch(total, parent_val, right, low);
                                        lemma_sub_branch(
                                            total,
                                            val,
                                            left,
                                            branch(parent_val, right, low),
                                        );
                                    }
                                    TreeZipper {
                                        path: path,
                                        here: B::combine(
                                            TreeF::Branch {
                                                val: val,
                                                left: left,
                                                right: B::combine(
                                                    TreeF::Branch {
                                                        val: parent_val,
                                                        left: right,
                                                        right: B::combine(
                                                            TreeF::Branch {
                                                                val: grandparent_val,
                                                                left: sibling,
                                                                right: uncle,
                                                            },
                                                        ),
                                                    },
                                                ),
                                            },
                                        ),
                                    }
                                },
                                (Direction::Left, Direction::Right) => {
                                    proof {
                                        lemma_sub_branch(total, grandparent_val, uncle, left);
                                        lemma_sub_branch(total, parent_val, right, sibling);
                                        lemma_sub_branch(
                                            total,
                                            val,
                                            branch(grandparent_val, uncle, left),
                                            branch(parent_val, right, sibling),
                                        );
                                    }
                                    TreeZipper {
                                        path: path,
                                        here: B::combine(
                                            TreeF::Branch {
                                                val: val,
                                                left: B::combine(
                                                    TreeF::Branch {
                                                        val: grandparent_val,
                                                        left: uncle,
                                                        right: left,
                                                    },
                                                ),
                                                right: B::combine(
                                                    TreeF::Branch {
                                                        val: parent_val,
                                                        left: right,
                                                        right: sibling,
                                                    },
                                                ),
                                            },
                                        ),
                                    }
                                },
                                (Direction::Right, Direction::Left) => {
                                    proof {
                                        lemma_sub_branch(total, parent_val, sibling, left);
                                        lemma_sub_branch(total, grandparent_val, right, uncle);
                                        lemma_sub_branch(
                                            total,
                                            val,
                                            branch(parent_val, sibling, left),
                                            branch(grandparent_val, right, uncle),
                                        );
                                    }
                                    TreeZipper {
                                        path: path,
                                        here: B::combine(
                                            TreeF::Branch {
                                                val: val,
                                                left: B::combine(
                                                    TreeF::Branch {
                                                        val: parent_val,
                                                        left: sibling,
                                                        right: left,
                                                    },
                                                ),
                                                right: B::combine(
                                                    TreeF::Branch {
                                                        val: grandparent_val,
                                                        left: right,
                                                        right: uncle,
                                                    },
                                                ),
                                            },
                                        ),
                                    }
                                },
                                (Direction::Right, Direction::Right) => {
                                    proof {
                                        let low = branch(grandparent_val, uncle, sibling);
                                        lemma_sub_branch(total, grandparent_val, uncle, sibling);
                                        lemma_sub_branch(total, parent_val, low, left);
                                        lemma_sub_branch(
                                            total,
                                            val,
                                            branch(parent_val, low, left),
                                            right,
                                        );
                                    }
                                    TreeZipper {
                                        path: path,
                                        here: B::combine(
                                            TreeF::Branch {
                                                val: val,
                                                left: B::combine(
                                                    TreeF::Branch {
                                                        val: parent_val,
                                                        left: B::combine(
                                                            TreeF::Branch {
                                                                val: grandparent_val,
                                                                left: uncle,
                                                                right: sibling,
                                                            },
                                                        ),
                                                        right: left,
                                                    },
                                                ),
                                                right: right,
                                            },
                                        ),
                                    }
                                },
                            }
                        },
                    }
                },
            }
        },
    }
}

/// Moves the focus to the root by splay steps. An empty focus below the
/// root first gives way to its parent. The branch that is raised keeps its
/// value, and what was in front of it and behind it stays there.
pub fn splay<A, B: SequenceTree<A>>(zipper: TreeZipper<A, B>) -> (top: TreeZipper<A, B>)
    requires
        zipper@.wf(),
    ensures
        top@ == zipper@.splayed(),
        top@.wf(),
        top@.in_order() == zipper@.in_order(),
        zipper@.raised().layer() is Branch ==> {
            &&& top@.path.len() == 0
            &&& top@.layer() is Branch
            &&& top@.layer()->val == zipper@.raised().layer()->val
            &&& top@.front() == zipper@.raised().front()
            &&& top@.back() == zipper@.raised().back()
        },
{
    let ghost start = zipper@;
    let mut zipper = zipper;
    if zipper.path.is_empty() {
        return zipper;
    }
    if !B::is_branch(&zipper.here) {
        proof {
            lemma_parent(zipper@);
        }
        zipper = parent_zipper(zipper);
    }
    while !zipper.path.is_empty()
        invariant
            zipper@.wf(),
            zipper@.layer() is Branch,
            zipper@.risen() == start.splayed(),
            zipper@.in_order() == start.in_order(),
            zipper@.layer()->val == start.raised().layer()->val,
            zipper@.front() == start.raised().front(),
            zipper@.back() == start.raised().back(),
        decreases zipper@.path.len(),
    {
        zipper = splay_step(zipper);
    }
    zipper
}

} // verus!
