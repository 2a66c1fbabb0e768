//! An ordered set of keys: a binary search tree that brings every key it
//! touches to the root.

use std::cmp::Ordering;
use vstd::prelude::*;
use vstd::std_specs::cmp::{OrdSpec, PartialEqSpec, PartialOrdSpec};
use crate::plain::TreeNode;
use crate::shape::{SequenceTree, TreeF};
use crate::splay::splay;
use crate::zipper::{
    lemma_child, lemma_empty, lemma_focus_split, lemma_sub_branch, lemma_walked_on, path_after,
    path_before, turns, zip_tree, Direction, Location, TreeZipper, TreeZipperStep,
};

verus! {

/// `a` comes strictly before `b`.
pub open spec fn below<A: Ord>(a: A, b: A) -> bool {
    a.cmp_spec(&b) == Ordering::Less
}

/// The comparison of `A` is a strict total order whose equality is
/// equality of values, and `Ord::cmp` computes it.
pub open spec fn strict_order<A: Ord>() -> bool {
    &&& A::obeys_cmp_spec()
    &&& forall|a: A, b: A| #[trigger] a.cmp_spec(&b) == Ordering::Equal <==> a == b
    &&& forall|a: A, b: A| #[trigger] a.cmp_spec(&b) == Ordering::Greater <==> below(b, a)
    &&& forall|a: A, b: A, c: A| #[trigger]
        below(a, b) && #[trigger] below(b, c) ==> below(a, c)
}

/// Every key comes strictly before the keys behind it.
pub open spec fn ascending<A: Ord>(keys: Seq<A>) -> bool {
    forall|i: int, j: int| 0 <= i < j < keys.len() ==> below(#[trigger] keys[i], #[trigger] keys[j])
}

/// Every key comes strictly before `v`.
pub open spec fn all_below<A: Ord>(keys: Seq<A>, v: A) -> bool {
    forall|i: int| 0 <= i < keys.len() ==> below(#[trigger] keys[i], v)
}

/// Every key comes strictly behind `v`.
pub open spec fn all_above<A: Ord>(keys: Seq<A>, v: A) -> bool {
    forall|i: int| 0 <= i < keys.len() ==> below(v, #[trigger] keys[i])
}

/// A type whose comparison obeys the laws that vstd states, with equality
/// of values, has a strict total order.
pub proof fn lemma_strict_order<A: Ord>()
    requires
        vstd::laws_cmp::obeys_cmp::<A>(),
        vstd::laws_eq::obeys_concrete_eq::<A>(),
    ensures
        strict_order::<A>(),
{
    reveal(vstd::laws_cmp::obeys_cmp_partial_ord);
    reveal(vstd::laws_cmp::obeys_cmp_ord);
    reveal(vstd::laws_cmp::obeys_partial_cmp_spec_properties);
    reveal(vstd::laws_eq::obeys_concrete_eq);
    assert forall|a: A, b: A| #[trigger] a.cmp_spec(&b) == Ordering::Equal <==> a == b by {
        assert(a.partial_cmp_spec(&b) == Some(a.cmp_spec(&b)));
    }
    assert forall|a: A, b: A| #[trigger] a.cmp_spec(&b) == Ordering::Greater <==> below(b, a) by {
        assert(a.partial_cmp_spec(&b) == Some(a.cmp_spec(&b)));
        assert(b.partial_cmp_spec(&a) == Some(b.cmp_spec(&a)));
    }
    assert forall|a: A, b: A, c: A| #[trigger] below(a, b) && #[trigger] below(b, c) implies below(
        a,
        c,
    ) by {
        assert(a.partial_cmp_spec(&b) == Some(a.cmp_spec(&b)));
        assert(b.partial_cmp_spec(&c) == Some(b.cmp_spec(&c)));
        assert(a.partial_cmp_spec(&c) == Some(a.cmp_spec(&c)));
    }
}

/// The machine integers are strictly ordered.
pub proof fn lemma_integers_strictly_ordered()
    ensures
        strict_order::<u8>(),
        strict_order::<u16>(),
        strict_order::<u32>(),
        strict_order::<u64>(),
        strict_order::<u128>(),
        strict_order::<usize>(),
        strict_order::<i8>(),
        strict_order::<i16>(),
        strict_order::<i32>(),
        strict_order::<i64>(),
        strict_order::<i128>(),
        strict_order::<isize>(),
{
}

/// Every step of the path went to the side on which `v` lies: to the left
/// of a greater key, to the right of a smaller one.
pub open spec fn towards<A: Ord, B>(path: Seq<TreeZipperStep<A, B>>, v: A) -> bool {
    forall|k: int|
        0 <= k < path.len() ==> match (#[trigger] path[k]).direction {
            Direction::Left => below(v, path[k].parent_val),
            Direction::Right => below(path[k].parent_val, v),
        }
}

/// In an ascending sequence that holds `x` between two parts, the first
/// part comes before `x` and the second behind it.
pub proof fn lemma_around<A: Ord>(front: Seq<A>, x: A, back: Seq<A>)
    requires
        ascending(front + seq![x] + back),
    ensures
        all_below(front, x),
        all_above(back, x),
{
    let whole = front + seq![x] + back;
    assert(whole[front.len() as int] == x);
    assert forall|i: int| 0 <= i < front.len() implies below(#[trigger] front[i], x) by {
        assert(whole[i] == front[i]);
    }
    assert forall|i: int| 0 <= i < back.len() implies below(x, #[trigger] back[i]) by {
        assert(whole[front.len() + 1 + i] == back[i]);
    }
}

/// A contiguous part of an ascending sequence is ascending.
pub proof fn lemma_part_ascending<A: Ord>(front: Seq<A>, part: Seq<A>, back: Seq<A>)
    requires
        ascending(front + part + back),
    ensures
        ascending(part),
{
    let whole = front + part + back;
    assert forall|i: int, j: int| 0 <= i < j < part.len() implies below(
        #[trigger] part[i],
        #[trigger] part[j],
    ) by {
        assert(whole[front.len() + i] == part[i]);
        assert(whole[front.len() + j] == part[j]);
    }
}

/// What comes before a key comes before every later key.
pub proof fn lemma_all_below_later<A: Ord>(keys: Seq<A>, x: A, v: A)
    requires
        strict_order::<A>(),
        all_below(keys, x),
        below(x, v),
    ensures
        all_below(keys, v),
{
    assert forall|i: int| 0 <= i < keys.len() implies below(#[trigger] keys[i], v) by {
        assert(below(keys[i], x) && below(x, v));
    }
}

/// What comes behind a key comes behind every earlier key.
pub proof fn lemma_all_above_earlier<A: Ord>(keys: Seq<A>, x: A, v: A)
    requires
        strict_order::<A>(),
        all_above(keys, x),
        below(v, x),
    ensures
        all_above(keys, v),
{
    assert forall|i: int| 0 <= i < keys.len() implies below(v, #[trigger] keys[i]) by {
        assert(below(v, x) && below(x, keys[i]));
    }
}

/// A key that is put between the keys before it and the keys behind it
/// keeps the sequence ascending.
pub proof fn lemma_between<A: Ord>(front: Seq<A>, v: A, back: Seq<A>)
    requires
        strict_order::<A>(),
        ascending(front + back),
        all_below(front, v),
        all_above(back, v),
    ensures
        ascending(front + seq![v] + back),
{
    let old_keys = front + back;
    let keys = front + seq![v] + back;
    assert forall|i: int, j: int| 0 <= i < j < keys.len() implies below(
        #[trigger] keys[i],
        #[trigger] keys[j],
    ) by {
        if j < front.len() {
            assert(old_keys[i] == keys[i] && old_keys[j] == keys[j]);
        } else if j == front.len() {
            assert(keys[i] == front[i]);
        } else if i < front.len() {
            assert(keys[i] == front[i]);
            assert(keys[j] == back[j - front.len() - 1]);
            assert(below(front[i], v) && below(v, back[j - front.len() - 1]));
        } else if i == front.len() {
            assert(keys[j] == back[j - front.len() - 1]);
        } else {
            assert(old_keys[i - 1] == keys[i] && old_keys[j - 1] == keys[j]);
        }
    }
}

/// Descends by comparison with `v` until a branch holds `v` or the tree
/// ends: to the left of a greater key, to the right of a smaller one. In a
/// search tree the focus is then the branch with `v`, or the empty place
/// where `v` belongs: everything in front of it is less than `v`, everything
/// behind it is greater.
pub fn find<A: Ord, B: SequenceTree<A>>(root: B, v: &A) -> (found: TreeZipper<A, B>)
    requires
        root.wf(),
        strict_order::<A>(),
    ensures
        found@.wf(),
        found@.in_order() == root.in_order(),
        found@.descent_of(root),
        towards(found@.path, *v),
        match found@.layer() {
            TreeF::Empty => found@.here == B::combined(TreeF::Empty),
            TreeF::Branch { val, left, right } => val == *v,
        },
        ascending(root.in_order()) ==> {
            &&& all_below(found@.front(), *v)
            &&& all_above(found@.back(), *v)
            &&& found@.layer() is Branch <==> root.in_order().contains(*v)
        },
{
    let mut path: Vec<TreeZipperStep<A, B>> = Vec::new();
    let mut node = root;
    let ghost total = root.in_order();
    let ghost start = Location { path: Seq::<TreeZipperStep<A, B>>::empty(), here: root };
    proof {
        root.wf_fits();
        assert((Location { path: path@, here: node }).in_order() =~= total);
        assert(turns(path@) =~= Seq::<Direction>::empty());
    }
    loop
        invariant_except_break
            (Location { path: path@, here: node }) == start.walked(turns(path@)),
        invariant
            strict_order::<A>(),
            start == (Location { path: Seq::<TreeZipperStep<A, B>>::empty(), here: root }),
            towards(path@, *v),
            (Location { path: path@, here: node }).wf(),
            (Location { path: path@, here: node }).in_order() == total,
            ascending(total) ==> all_below(path_before(path@), *v) && all_above(
                path_after(path@),
                *v,
            ),
        ensures
            (Location { path: path@, here: node }) == start.walked(turns(path@)).rebuilt(),
            towards(path@, *v),
            (Location { path: path@, here: node }).wf(),
            (Location { path: path@, here: node }).in_order() == total,
            match node.separated() {
                TreeF::Empty => node == B::combined(TreeF::Empty),
                TreeF::Branch { val, left, right } => val == *v,
            },
            ascending(total) ==> {
                &&& all_below((Location { path: path@, here: node }).front(), *v)
                &&& all_above((Location { path: path@, here: node }).back(), *v)
            },
        decreases node.in_order().len(),
    {
        let ghost loc = Location { path: path@, here: node };
        proof {
            node.separate_law();
            lemma_empty::<A, B>();
        }
        match B::separate(node) {
            TreeF::Empty => {
                node = B::combine(TreeF::Empty);
                break ;
            },
            TreeF::Branch { val, left, right } => {
                proof {
                    if ascending(total) {
                        lemma_part_ascending(
                            path_before(loc.path),
                            loc.here.in_order(),
                            path_after(loc.path),
                        );
                        lemma_around(left.in_order(), val, right.in_order());
                    }
                }
                match v.cmp(&val) {
                    Ordering::Less => {
                        proof {
                            lemma_child(loc, Direction::Left);
                            lemma_walked_on(start, loc, Direction::Left);
                            if ascending(total) {
                                lemma_all_above_earlier(right.in_order(), val, *v);
                            }
                        }
                        path.push(
                            TreeZipperStep {
                                direction: Direction::Left,
                                parent_val: val,
                                sibling: right,
                            },
                        );
                        node = left;
                    },
                    Ordering::Equal => {
                        proof {
                            lemma_sub_branch(total.len(), val, left, right);
                        }
                        node = B::combine(TreeF::Branch { val: val, left: left, right: right });
                        break ;
                    },
                    Ordering::Greater => {
                        proof {
                            lemma_child(loc, Direction::Right);
                            lemma_walked_on(start, loc, Direction::Right);
                            if ascending(total) {
                                lemma_all_below_later(left.in_order(), val, *v);
                            }
                        }
                        path.push(
                            TreeZipperStep {
                                direction: Direction::Right,
                                parent_val: val,
                                sibling: left,
                            },
                        );
                        node = right;
                    },
                };
            },
        };
    }
    let found = TreeZipper { path: path, here: node };
    proof {
        if ascending(total) {
            lemma_found(found@, *v);
        }
    }
    found
}

/// Where everything in front of the focus is less than `v` and everything
/// behind it is greater, the tree holds `v` exactly if the focus is a branch
/// with `v`.
pub proof fn lemma_found<A: Ord, B: SequenceTree<A>>(loc: Location<A, B>, v: A)
    requires
        strict_order::<A>(),
        loc.here.wf(),
        loc.layer() is Branch ==> loc.layer()->val == v,
        all_below(loc.front(), v),
        all_above(loc.back(), v),
    ensures
        loc.layer() is Branch <==> loc.in_order().contains(v),
{
    loc.here.separate_law();
    if loc.layer() is Branch {
        lemma_focus_split(loc);
    } else {
        let keys = loc.in_order();
        assert(keys =~= loc.front() + loc.back());
        if keys.contains(v) {
            let i = choose|i: int| 0 <= i < keys.len() && keys[i] == v;
            if i < loc.front().len() {
                assert(below(loc.front()[i], v));
            } else {
                assert(below(v, loc.back()[i - loc.front().len()]));
            }
            assert(v.cmp_spec(&v) == Ordering::Equal);
        }
    }
}

/// In an ascending sequence no key occurs twice.
pub proof fn lemma_ascending_distinct<A: Ord>(keys: Seq<A>)
    requires
        strict_order::<A>(),
        ascending(keys),
    ensures
        keys.no_duplicates(),
{
    assert forall|i: int, j: int| 0 <= i < keys.len() && 0 <= j < keys.len() && i != j implies keys[i]
        != keys[j] by {
        lemma_not_both(keys[i], keys[i]);
        if i < j {
            assert(below(keys[i], keys[j]));
        } else {
            assert(below(keys[j], keys[i]));
        }
    }
}

/// The keys of a set that started empty and took the given keys one after
/// the other.
pub open spec fn after_inserts<A>(keys: Seq<A>) -> Set<A>
    decreases keys.len(),
{
    if keys.len() == 0 {
        Set::empty()
    } else {
        after_inserts(keys.drop_last()).insert(keys.last())
    }
}

/// A set built by inserts holds exactly the keys that were inserted.
pub proof fn lemma_after_inserts<A>(keys: Seq<A>, v: A)
    ensures
        after_inserts(keys).contains(v) <==> keys.contains(v),
    decreases keys.len(),
{
    if keys.len() > 0 {
        lemma_after_inserts(keys.drop_last(), v);
        if keys.contains(v) {
            let i = choose|i: int| 0 <= i < keys.len() && keys[i] == v;
            if i < keys.len() - 1 {
                assert(keys.drop_last()[i] == v);
            }
        }
        if keys.drop_last().contains(v) {
            let i = choose|i: int| 0 <= i < keys.drop_last().len() && keys.drop_last()[i] == v;
            assert(keys[i] == v);
        }
    }
}

/// An ordered set of keys, held in a splay tree.
#[derive(Debug)]
pub struct SplayTree<A> {
    root: TreeNode<A>,
}

impl<A: Ord> View for SplayTree<A> {
    type V = Set<A>;

    /// The keys of the set.
    open spec fn view(&self) -> Set<A> {
        self.in_order().to_set()
    }
}

impl<A: Ord> SplayTree<A> {
    /// The tree that holds the keys.
    pub closed spec fn tree(&self) -> TreeNode<A> {
        self.root
    }

    /// The in-order traversal of the tree.
    pub open spec fn in_order(&self) -> Seq<A> {
        self.tree().keys()
    }

    /// The key at the root of the tree, if the set holds any.
    pub open spec fn root_key(&self) -> Option<A> {
        match self.tree() {
            TreeNode::Empty => None,
            TreeNode::Branch { val, .. } => Some(val),
        }
    }

    /// The search-tree invariant: the in-order traversal is ascending, so no
    /// key occurs twice.
    pub open spec fn wf(&self) -> bool {
        &&& strict_order::<A>()
        &&& ascending(self.in_order())
    }

    /// No key of the set lies strictly between `k` and `v`.
    pub open spec fn next_to(&self, k: A, v: A) -> bool {
        forall|i: int|
            0 <= i < self.in_order().len() ==> {
                let x = #[trigger] self.in_order()[i];
                &&& !(below(k, x) && below(x, v))
                &&& !(below(v, x) && below(x, k))
            }
    }

    /// The empty set.
    pub fn new() -> (set: SplayTree<A>)
        requires
            strict_order::<A>(),
        ensures
            set.wf(),
            set@ == Set::<A>::empty(),
            set.in_order() == Seq::<A>::empty(),
    {
        let set = SplayTree { root: TreeNode::Empty };
        proof {
            assert(set@ =~= Set::<A>::empty());
        }
        set
    }

    /// Adds `v` to the set and brings it to the root. A key that the set
    /// holds already is brought to the root and nothing is added.
    pub fn insert(&mut self, v: A)
        requires
            old(self).wf(),
        ensures
            final(self).wf(),
            final(self)@ == old(self)@.insert(v),
            final(self).root_key() == Some(v),
            old(self)@.contains(v) ==> final(self).in_order() == old(self).in_order(),
            !old(self)@.contains(v) ==> exists|k: int|
                {
                    &&& 0 <= k <= old(self).in_order().len()
                    &&& final(self).in_order() == old(self).in_order().insert(k, v)
                },
    {
        let ghost keys = self.in_order();
        let mut old_root = TreeNode::Empty;
        std::mem::swap(&mut self.root, &mut old_root);
        let mut ins_loc = find(old_root, &v);
        let ghost at = ins_loc@;
        proof {
            at.here.separate_law();
            lemma_empty::<A, TreeNode<A>>();
        }
        if let TreeNode::Empty = ins_loc.here {
            proof {
                lemma_sub_branch::<A, TreeNode<A>>(1, v, TreeNode::Empty, TreeNode::Empty);
            }
            ins_loc.here = TreeNode::Branch {
                val: v,
                left: Box::new(TreeNode::Empty),
                right: Box::new(TreeNode::Empty),
            };
            proof {
                let front = path_before(at.path);
                let back = path_after(at.path);
                assert(keys =~= front + back);
                assert(ins_loc@.here.in_order() =~= seq![v]);
                assert(ins_loc@.in_order() =~= front + seq![v] + back);
                assert(front + seq![v] + back =~= keys.insert(front.len() as int, v));
                lemma_between(front, v, back);
                assert(ins_loc@.in_order().to_set() =~= keys.to_set().insert(v)) by {
                    let grown = ins_loc@.in_order();
                    assert(grown[front.len() as int] == v);
                    assert forall|x: A| grown.contains(x) <==> keys.contains(x) || x == v by {
                        if grown.contains(x) {
                            let i = choose|i: int| 0 <= i < grown.len() && grown[i] == x;
                            if i < front.len() {
                                assert(keys[i] == x);
                            } else if i > front.len() {
                                assert(keys[i - 1] == x);
                            }
                        }
                        if keys.contains(x) {
                            let i = choose|i: int| 0 <= i < keys.len() && keys[i] == x;
                            if i < front.len() {
                                assert(grown[i] == x);
                            } else {
                                assert(grown[i + 1] == x);
                            }
                        }
                    }
                }
            }
        } else {
            proof {
                lemma_focus_split(at);
                assert(keys.to_set().insert(v) =~= keys.to_set());
            }
        }
        self.root = zip_tree(splay(ins_loc));
    }

    /// Whether the set holds `v`. The keys stay as they are; `v`, or where
    /// the set does not hold it the key next to it at which the search
    /// ended, is brought to the root.
    pub fn contains(&mut self, v: A) -> (held: bool)
        requires
            old(self).wf(),
        ensures
            final(self).wf(),
            final(self).in_order() == old(self).in_order(),
            held == old(self)@.contains(v),
            held ==> final(self).root_key() == Some(v),
            !held && old(self).in_order().len() > 0 ==> {
                &&& final(self).root_key() is Some
                &&& old(self)@.contains(final(self).root_key()->0)
                &&& old(self).next_to(final(self).root_key()->0, v)
            },
    {
        let mut old_root = TreeNode::Empty;
        std::mem::swap(&mut self.root, &mut old_root);
        let find_loc = find(old_root, &v);
        let result = match find_loc.here {
            TreeNode::Empty => false,
            TreeNode::Branch { .. } => true,
        };
        proof {
            find_loc@.here.separate_law();
            if find_loc@.layer() is Branch {
                lemma_focus_split(find_loc@);
            } else if find_loc@.path.len() > 0 {
                lemma_last_step(find_loc@, v);
            } else {
                assert(find_loc@.in_order() =~= find_loc@.here.in_order());
            }
        }
        self.root = zip_tree(splay(find_loc));
        result
    }

    /// Brings `v`, or where the set does not hold it the key next to it at
    /// which the search ended, to the root. The keys stay as they are.
    pub fn splay_to_root(&mut self, v: A)
        requires
            old(self).wf(),
        ensures
            final(self).wf(),
            final(self).in_order() == old(self).in_order(),
            old(self)@.contains(v) ==> final(self).root_key() == Some(v),
            !old(self)@.contains(v) && old(self).in_order().len() > 0 ==> {
                &&& final(self).root_key() is Some
                &&& old(self)@.contains(final(self).root_key()->0)
                &&& old(self).next_to(final(self).root_key()->0, v)
            },
    {
        let mut old_root = TreeNode::Empty;
        std::mem::swap(&mut self.root, &mut old_root);
        let find_loc = find(old_root, &v);
        proof {
            find_loc@.here.separate_law();
            if find_loc@.layer() is Branch {
                lemma_focus_split(find_loc@);
            } else if find_loc@.path.len() > 0 {
                lemma_last_step(find_loc@, v);
            } else {
                assert(find_loc@.in_order() =~= find_loc@.here.in_order());
            }
        }
        self.root = zip_tree(splay(find_loc));
    }

    /// The key at the root of the tree, if the set holds any.
    pub fn root_value(&self) -> (key: Option<&A>)
        ensures
            match key {
                None => self.root_key() is None,
                Some(k) => self.root_key() == Some(*k),
            },
    {
        match &self.root {
            TreeNode::Empty => None,
            TreeNode::Branch { val, .. } => Some(val),
        }
    }
}

/// What is still to be listed once the walk returns to the branches on the
/// stack: for each, from the last one pushed, its key and its right subtree.
pub open spec fn pending<A>(stack: Seq<&TreeNode<A>>) -> Seq<A>
    decreases stack.len(),
{
    if stack.len() == 0 {
        Seq::empty()
    } else {
        match *stack.last() {
            TreeNode::Empty => pending(stack.drop_last()),
            TreeNode::Branch { val, left, right } => seq![val] + right.keys() + pending(
                stack.drop_last(),
            ),
        }
    }
}

impl<A: Ord + Copy> SplayTree<A> {
    /// The keys in ascending order. The walk keeps its own stack, so a tall
    /// tree costs no call depth.
    pub fn keys(&self) -> (listed: Vec<A>)
        ensures
            listed@ == self.in_order(),
    {
        let mut listed: Vec<A> = Vec::new();
        let mut stack: Vec<&TreeNode<A>> = Vec::new();
        let mut cur: &TreeNode<A> = &self.root;
        let ghost total = self.root.keys();
        proof {
            assert(listed@ + cur.keys() + pending(stack@) =~= total);
        }
        loop
            invariant
                listed@ + cur.keys() + pending(stack@) == total,
                forall|k: int| 0 <= k < stack@.len() ==> (#[trigger] stack@[k]) is Branch,
            ensures
                listed@ == total,
            decreases cur.keys().len() + pending(stack@).len(), cur.keys().len(),
        {
            match cur {
                TreeNode::Branch { val, left, right } => {
                    proof {
                        assert(stack@.push(cur).drop_last() =~= stack@);
                        assert(listed@ + left.keys() + pending(stack@.push(cur)) =~= total);
                    }
                    stack.push(cur);
                    cur = &**left;
                },
                TreeNode::Empty => {
                    let ghost waiting = stack@;
                    match stack.pop() {
                        None => {
                            proof {
                                assert(listed@ =~= total);
                            }
                            break ;
                        },
                        Some(node) => {
                            match node {
                                TreeNode::Branch { val, left, right } => {
                                    proof {
                                        assert(node == waiting.last());
                                        assert(listed@.push(*val) + right.keys() + pending(
                                            waiting.drop_last(),
                                        ) =~= total);
                                    }
                                    listed.push(*val);
                                    cur = &**right;
                                },
                                TreeNode::Empty => {
                                    proof {
                                        assert(node == waiting.last());
                                        assert(waiting[waiting.len() - 1] is Branch);
                                    }
                                },
                            }
                        },
                    }
                },
            }
        }
        listed
    }
}

/// Where a search for `v` ended on an empty place below the root, the parent
/// of that place is a key of the tree with no key strictly between it and
/// `v`.
pub proof fn lemma_last_step<A: Ord, B: SequenceTree<A>>(loc: Location<A, B>, v: A)
    requires
        strict_order::<A>(),
        loc.wf(),
        ascending(loc.in_order()),
        all_below(loc.front(), v),
        all_above(loc.back(), v),
        !(loc.layer() is Branch),
        loc.path.len() > 0,
    ensures
        loc.in_order().contains(loc.path.last().parent_val),
        forall|i: int|
            0 <= i < loc.in_order().len() ==> {
                let x = #[trigger] loc.in_order()[i];
                &&& !(below(loc.path.last().parent_val, x) && below(x, v))
                &&& !(below(v, x) && below(x, loc.path.last().parent_val))
            },
{
    loc.here.separate_law();
    let keys = loc.in_order();
    let up = loc.path.last();
    let k = up.parent_val;
    let front = path_before(loc.path);
    let back = path_after(loc.path);
    assert(keys =~= front + back);
    assert(front == path_before(loc.path.drop_last()) + up.before());
    assert(back == up.after() + path_after(loc.path.drop_last()));
    match up.direction {
        Direction::Left => {
            assert(back[0] == k);
            assert(keys[front.len() as int] == k);
            assert forall|i: int| 0 <= i < keys.len() implies {
                let x = #[trigger] keys[i];
                &&& !(below(k, x) && below(x, v))
                &&& !(below(v, x) && below(x, k))
            } by {
                let x = keys[i];
                if i < front.len() {
                    assert(below(front[i], v));
                    lemma_not_both(x, v);
                } else if i == front.len() {
                    lemma_not_both(x, x);
                } else {
                    assert(below(keys[front.len() as int], keys[i]));
                    lemma_not_both(x, k);
                    assert(below(v, back[i - front.len()]));
                    lemma_not_both(x, v);
                }
            }
        },
        Direction::Right => {
            assert(front[front.len() - 1] == k);
            assert(keys[front.len() - 1] == k);
            assert forall|i: int| 0 <= i < keys.len() implies {
                let x = #[trigger] keys[i];
                &&& !(below(k, x) && below(x, v))
                &&& !(below(v, x) && below(x, k))
            } by {
                let x = keys[i];
                if i < front.len() - 1 {
                    assert(below(keys[i], keys[front.len() - 1]));
                    lemma_not_both(x, k);
                    assert(below(front[i], v));
                    lemma_not_both(x, v);
                } else if i == front.len() - 1 {
                    lemma_not_both(x, x);
                } else {
                    assert(below(v, back[i - front.len()]));
                    lemma_not_both(x, v);
                }
            }
        },
    }
}

/// Of two keys at most one comes before the other, and none before itself.
pub proof fn lemma_not_both<A: Ord>(a: A, b: A)
    requires
        strict_order::<A>(),
    ensures
        !(below(a, b) && below(b, a)),
        !below(a, a),
{
    assert(a.cmp_spec(&a) == Ordering::Equal);
    if below(a, b) && below(b, a) {
        assert(below(a, a));
    }
}

} // verus!
