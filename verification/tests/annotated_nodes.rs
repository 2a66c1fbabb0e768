use splay_zipper::annotated::AnnotatedTreeNode;
use splay_zipper::shape::{TreeAlgebra, TreeCoalgebra, TreeF};

/// The sum of the values of a subtree.
#[derive(Clone, Copy, Debug, PartialEq)]
struct Sum(i64);

impl TreeAlgebra<i64> for Sum {
    // the two ghost items of the trait; running code never calls them
    fn can_combine(_: TreeF<i64, Sum>) -> bool {
        true
    }

    fn combined(input: TreeF<i64, Sum>) -> Sum {
        Sum::combine(input)
    }

    fn combine(input: TreeF<i64, Sum>) -> Sum {
        match input {
            TreeF::Empty => Sum(0),
            TreeF::Branch { val, left, right } => Sum(val + left.0 + right.0),
        }
    }
}

type Node = AnnotatedTreeNode<i64, Sum>;

fn leaf(v: i64) -> Node {
    Node::combine(TreeF::Branch {
        val: v,
        left: Node::combine(TreeF::Empty),
        right: Node::combine(TreeF::Empty),
    })
}

#[test]
fn annotation_is_combined_from_value_and_children() {
    let e = Node::combine(TreeF::Empty);
    assert_eq!(*e.annotation(), Sum(0));
    assert!(!Node::is_branch(&e));
    let t = Node::combine(TreeF::Branch { val: 10, left: leaf(3), right: leaf(4) });
    assert_eq!(*t.annotation(), Sum(17));
    let u = Node::combine(TreeF::Branch { val: 100, left: t, right: leaf(-1) });
    assert_eq!(*u.annotation(), Sum(116));
    assert!(Node::is_branch(&u));
}

#[test]
fn annotated_node_comes_apart_into_its_layer() {
    let t = Node::combine(TreeF::Branch { val: 10, left: leaf(3), right: leaf(4) });
    match Node::separate(t) {
        TreeF::Branch { val, left, right } => {
            assert_eq!(val, 10);
            assert_eq!(*left.annotation(), Sum(3));
            assert_eq!(*right.annotation(), Sum(4));
            assert!(matches!(Node::separate(left), TreeF::Branch { val: 3, .. }));
        }
        TreeF::Empty => panic!("a branch was taken apart"),
    }
    assert!(matches!(Node::separate(Node::combine(TreeF::Empty)), TreeF::Empty));
}
