use splay_zipper::ordered::{find, SplayTree};
use splay_zipper::plain::TreeNode;
use splay_zipper::shape::{TreeAlgebra, TreeCoalgebra, TreeF};
use splay_zipper::splay::{splay, splay_step};
use splay_zipper::zipper::{
    end, left_zipper, parent_zipper, right_zipper, root_zipper, rotate_zipper, zip_tree,
    Direction, TreeZipper, TreeZipperStep,
};

fn leaf(v: i32) -> TreeNode<i32> {
    node(v, TreeNode::Empty, TreeNode::Empty)
}

fn node(v: i32, left: TreeNode<i32>, right: TreeNode<i32>) -> TreeNode<i32> {
    TreeNode::combine(TreeF::Branch { val: v, left, right })
}

fn show(t: &TreeNode<i32>) -> String {
    match t {
        TreeNode::Empty => String::from("."),
        TreeNode::Branch { val, left, right } => {
            format!("({} {} {})", show(left), val, show(right))
        }
    }
}

fn show_zipper(z: &TreeZipper<i32, TreeNode<i32>>) -> String {
    let mut out = String::new();
    for step in z.path.iter() {
        let side = match step.direction {
            Direction::Left => "L",
            Direction::Right => "R",
        };
        out.push_str(&format!("{}{}{} ", side, step.parent_val, show(&step.sibling)));
    }
    out.push_str(&format!("@{}", show(&z.here)));
    out
}

fn set_of(keys: &[i32]) -> SplayTree<i32> {
    let mut set = SplayTree::new();
    for k in keys {
        set.insert(*k);
    }
    set
}

#[test]
fn empty_set_holds_nothing() {
    let mut set: SplayTree<i32> = SplayTree::new();
    assert_eq!(set.contains(5), false);
    assert!(set.root_value().is_none());
    assert_eq!(set.keys(), Vec::<i32>::new());
}

#[test]
fn contains_brings_key_to_root() {
    let mut set = set_of(&[3, 1, 4, 1, 5, 9, 2, 6]);
    assert_eq!(set.contains(9), true);
    assert_eq!(set.root_value(), Some(&9));
    assert_eq!(set.keys(), vec![1, 2, 3, 4, 5, 6, 9]);
}

#[test]
fn insert_brings_key_to_root() {
    let mut set: SplayTree<i32> = SplayTree::new();
    for k in [7, 3, 11, 5, 3, 1, 11, 8] {
        set.insert(k);
        assert_eq!(set.root_value(), Some(&k));
    }
    assert_eq!(set.keys(), vec![1, 3, 5, 7, 8, 11]);
}

#[test]
fn set_holds_exactly_what_was_inserted() {
    let inserted = [40, -2, 17, 0, 99, 17, 3, -50];
    let mut set = set_of(&inserted);
    for v in -60..110 {
        assert_eq!(set.contains(v), inserted.contains(&v));
    }
}

#[test]
fn keys_stay_sorted_and_distinct_after_every_operation() {
    let mut set: SplayTree<i32> = SplayTree::new();
    let mut state: u32 = 12345;
    let mut model: Vec<i32> = Vec::new();
    for round in 0..400 {
        state = state.wrapping_mul(1103515245).wrapping_add(12345);
        let key = ((state >> 16) % 64) as i32;
        match round % 3 {
            0 => {
                set.insert(key);
                if !model.contains(&key) {
                    model.push(key);
                    model.sort();
                }
            }
            1 => {
                assert_eq!(set.contains(key), model.contains(&key));
            }
            _ => {
                set.splay_to_root(key);
            }
        }
        assert_eq!(set.keys(), model);
    }
}

#[test]
fn insert_of_held_key_changes_nothing_but_the_root() {
    let mut set = set_of(&[2, 1, 3]);
    set.insert(1);
    assert_eq!(set.keys(), vec![1, 2, 3]);
    assert_eq!(set.root_value(), Some(&1));
}

#[test]
fn contains_of_missing_key_brings_neighbour_to_root() {
    let mut set = set_of(&[10, 20, 30, 40]);
    assert_eq!(set.contains(25), false);
    let root = *set.root_value().unwrap();
    assert!(root == 20 || root == 30);
    assert_eq!(set.keys(), vec![10, 20, 30, 40]);
    assert_eq!(set.contains(5), false);
    assert_eq!(set.root_value(), Some(&10));
    assert_eq!(set.contains(50), false);
    assert_eq!(set.root_value(), Some(&40));
}

#[test]
fn splay_to_root_brings_key_to_root() {
    let mut set = set_of(&[5, 4, 3, 2, 1]);
    set.splay_to_root(4);
    assert_eq!(set.root_value(), Some(&4));
    assert_eq!(set.keys(), vec![1, 2, 3, 4, 5]);
    set.splay_to_root(0);
    assert_eq!(set.root_value(), Some(&1));
    assert_eq!(set.keys(), vec![1, 2, 3, 4, 5]);
}

#[test]
fn sorted_inserts_make_a_tall_tree_that_still_works() {
    let mut set: SplayTree<i32> = SplayTree::new();
    for k in 0..20000 {
        set.insert(k);
    }
    assert_eq!(set.contains(0), true);
    assert_eq!(set.root_value(), Some(&0));
    assert_eq!(set.keys().len(), 20000);
}

#[test]
fn zip_of_root_zipper_is_the_tree() {
    let t = node(4, node(2, leaf(1), leaf(3)), leaf(6));
    let before = show(&t);
    let back = zip_tree(root_zipper::<i32, TreeNode<i32>>(t));
    assert_eq!(show(&back), before);
    assert_eq!(before, "(((. 1 .) 2 (. 3 .)) 4 (. 6 .))");
}

#[test]
fn zip_after_a_descent_is_the_tree() {
    let before = "(((. 1 .) 2 (. 3 .)) 4 ((. 5 .) 6 .))";
    for v in 0..8 {
        let t = node(4, node(2, leaf(1), leaf(3)), node(6, leaf(5), TreeNode::Empty));
        assert_eq!(show(&t), before);
        assert_eq!(show(&zip_tree(find(t, &v))), before);
    }
    let t = node(4, node(2, leaf(1), leaf(3)), node(6, leaf(5), TreeNode::Empty));
    assert_eq!(show(&zip_tree(end(t))), before);
}

#[test]
fn combine_and_separate_are_inverse_on_plain_nodes() {
    let t = node(2, leaf(1), leaf(3));
    assert!(TreeNode::is_branch(&t));
    match TreeNode::separate(t) {
        TreeF::Branch { val, left, right } => {
            assert_eq!(val, 2);
            assert_eq!(show(&left), "(. 1 .)");
            assert_eq!(show(&right), "(. 3 .)");
        }
        TreeF::Empty => panic!("a branch was taken apart"),
    }
    let e: TreeNode<i32> = TreeNode::combine(TreeF::Empty);
    assert!(!TreeNode::is_branch(&e));
    assert!(matches!(TreeNode::separate(e), TreeF::Empty));
}

#[test]
fn navigation_moves_the_focus() {
    let t = node(4, node(2, leaf(1), leaf(3)), leaf(6));
    let z = left_zipper(root_zipper(t));
    assert_eq!(show_zipper(&z), "L4(. 6 .) @((. 1 .) 2 (. 3 .))");
    let z = right_zipper(z);
    assert_eq!(show_zipper(&z), "L4(. 6 .) R2(. 1 .) @(. 3 .)");
    let z = right_zipper(z);
    assert_eq!(show_zipper(&z), "L4(. 6 .) R2(. 1 .) R3. @.");
    let z = right_zipper(z);
    assert_eq!(show_zipper(&z), "L4(. 6 .) R2(. 1 .) R3. @.");
    let z = parent_zipper(z);
    assert_eq!(show_zipper(&z), "L4(. 6 .) R2(. 1 .) @(. 3 .)");
    let z = parent_zipper(parent_zipper(z));
    assert_eq!(show_zipper(&z), "@(((. 1 .) 2 (. 3 .)) 4 (. 6 .))");
    let z = parent_zipper(z);
    assert_eq!(show_zipper(&z), "@(((. 1 .) 2 (. 3 .)) 4 (. 6 .))");
}

#[test]
fn rotation_rewires_focus_and_parent() {
    // focus Branch(2, 1, 3) on the left of parent 4 with sibling 6
    let t = node(4, node(2, leaf(1), leaf(3)), leaf(6));
    let z = rotate_zipper(left_zipper(root_zipper(t)));
    assert_eq!(show_zipper(&z), "@((. 1 .) 2 ((. 3 .) 4 (. 6 .)))");
    // the mirror
    let t = node(2, leaf(1), node(4, leaf(3), leaf(6)));
    let z = rotate_zipper(right_zipper(root_zipper(t)));
    assert_eq!(show_zipper(&z), "@(((. 1 .) 2 (. 3 .)) 4 (. 6 .))");
    // no parent, and an empty focus
    let z = rotate_zipper(root_zipper(leaf(1)));
    assert_eq!(show_zipper(&z), "@(. 1 .)");
    let z = rotate_zipper(left_zipper(left_zipper(root_zipper(leaf(1)))));
    assert_eq!(show_zipper(&z), "L1. @.");
}

fn focus_on(path: Vec<(Direction, i32, TreeNode<i32>)>, here: TreeNode<i32>)
    -> TreeZipper<i32, TreeNode<i32>> {
    TreeZipper {
        path: path
            .into_iter()
            .map(|(direction, parent_val, sibling)| TreeZipperStep { direction, parent_val, sibling })
            .collect(),
        here,
    }
}

#[test]
fn splay_step_zig() {
    let z = focus_on(vec![(Direction::Left, 5, leaf(6))], node(3, leaf(2), leaf(4)));
    assert_eq!(show_zipper(&splay_step(z)), "@((. 2 .) 3 ((. 4 .) 5 (. 6 .)))");
    let z = focus_on(vec![(Direction::Right, 1, leaf(0))], node(3, leaf(2), leaf(4)));
    assert_eq!(show_zipper(&splay_step(z)), "@(((. 0 .) 1 (. 2 .)) 3 (. 4 .))");
}

#[test]
fn splay_step_zig_zig() {
    let z = focus_on(
        vec![(Direction::Left, 7, leaf(8)), (Direction::Left, 5, leaf(6))],
        node(3, leaf(2), leaf(4)),
    );
    assert_eq!(
        show_zipper(&splay_step(z)),
        "@((. 2 .) 3 ((. 4 .) 5 ((. 6 .) 7 (. 8 .))))"
    );
    let z = focus_on(
        vec![(Direction::Right, 1, leaf(0)), (Direction::Right, 3, leaf(2))],
        node(5, leaf(4), leaf(6)),
    );
    assert_eq!(
        show_zipper(&splay_step(z)),
        "@((((. 0 .) 1 (. 2 .)) 3 (. 4 .)) 5 (. 6 .))"
    );
}

#[test]
fn splay_step_zig_zag() {
    // the focus is the left child of 7, which is the right child of 1
    let z = focus_on(
        vec![(Direction::Right, 1, leaf(0)), (Direction::Left, 7, leaf(8))],
        node(4, leaf(3), leaf(5)),
    );
    assert_eq!(
        show_zipper(&splay_step(z)),
        "@(((. 0 .) 1 (. 3 .)) 4 ((. 5 .) 7 (. 8 .)))"
    );
    // the focus is the right child of 1, which is the left child of 7
    let z = focus_on(
        vec![(Direction::Left, 7, leaf(8)), (Direction::Right, 1, leaf(0))],
        node(4, leaf(3), leaf(5)),
    );
    assert_eq!(
        show_zipper(&splay_step(z)),
        "@(((. 0 .) 1 (. 3 .)) 4 ((. 5 .) 7 (. 8 .)))"
    );
}

#[test]
fn splay_step_leaves_longer_path_in_place() {
    let z = focus_on(
        vec![
            (Direction::Left, 9, TreeNode::Empty),
            (Direction::Left, 7, leaf(8)),
            (Direction::Left, 5, leaf(6)),
        ],
        leaf(3),
    );
    assert_eq!(
        show_zipper(&splay_step(z)),
        "L9. @(. 3 (. 5 ((. 6 .) 7 (. 8 .))))"
    );
}

#[test]
fn splay_step_at_root_and_on_empty_focus() {
    let z = splay_step(root_zipper(leaf(1)));
    assert_eq!(show_zipper(&z), "@(. 1 .)");
    let z = focus_on(vec![(Direction::Left, 5, leaf(6))], TreeNode::Empty);
    assert_eq!(show_zipper(&splay_step(z)), "L5(. 6 .) @.");
}

#[test]
fn splay_moves_focus_to_root_and_keeps_order() {
    let t = node(8, node(6, node(4, node(2, leaf(1), leaf(3)), leaf(5)), leaf(7)), leaf(9));
    let z = find(t, &2);
    assert_eq!(z.path.len(), 3);
    let top = splay(z);
    assert_eq!(top.path.len(), 0);
    let mut set_keys = Vec::new();
    collect(&top.here, &mut set_keys);
    assert_eq!(set_keys, vec![1, 2, 3, 4, 5, 6, 7, 8, 9]);
    match &top.here {
        TreeNode::Branch { val, .. } => assert_eq!(*val, 2),
        TreeNode::Empty => panic!("the root is a branch"),
    }
}

fn collect(t: &TreeNode<i32>, out: &mut Vec<i32>) {
    if let TreeNode::Branch { val, left, right } = t {
        collect(left, out);
        out.push(*val);
        collect(right, out);
    }
}

#[test]
fn splay_of_empty_focus_raises_its_parent() {
    let t = node(4, node(2, leaf(1), leaf(3)), leaf(6));
    let z = find(t, &5);
    assert_eq!(show_zipper(&z), "R4((. 1 .) 2 (. 3 .)) L6. @.");
    let top = splay(z);
    assert_eq!(show_zipper(&top), "@((((. 1 .) 2 (. 3 .)) 4 .) 6 .)");
    let z = find(zip_tree(top), &0);
    assert_eq!(show_zipper(&z), "L6. L4. L2(. 3 .) L1. @.");
    let top = splay(z);
    assert_eq!(show_zipper(&top), "@(. 1 ((. 2 ((. 3 .) 4 .)) 6 .))");
}

#[test]
fn splay_at_root_changes_nothing() {
    let top = splay(root_zipper::<i32, TreeNode<i32>>(TreeNode::Empty));
    assert_eq!(show_zipper(&top), "@.");
    let top = splay(root_zipper(node(2, leaf(1), leaf(3))));
    assert_eq!(show_zipper(&top), "@((. 1 .) 2 (. 3 .))");
}

#[test]
fn find_stops_at_key_or_at_its_place() {
    let t = node(4, node(2, leaf(1), leaf(3)), leaf(6));
    let z = find(t, &3);
    assert_eq!(show_zipper(&z), "L4(. 6 .) R2(. 1 .) @(. 3 .)");
    let z = find(zip_tree(z), &0);
    assert_eq!(show_zipper(&z), "L4(. 6 .) L2(. 3 .) L1. @.");
    let z = find(zip_tree(z), &4);
    assert_eq!(show_zipper(&z), "@(((. 1 .) 2 (. 3 .)) 4 (. 6 .))");
}

#[test]
fn end_is_behind_the_last_key() {
    let t = node(4, node(2, leaf(1), leaf(3)), leaf(6));
    let z = end(t);
    assert_eq!(show_zipper(&z), "R4((. 1 .) 2 (. 3 .)) R6. @.");
    let z = end::<i32, TreeNode<i32>>(TreeNode::Empty);
    assert_eq!(show_zipper(&z), "@.");
}
