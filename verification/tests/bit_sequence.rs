use splay_zipper::bits::{get_size, BitRangeNode, Reversible};
use splay_zipper::interval::{find_index, isolate_interval};
use splay_zipper::sequence::BitRange;
use splay_zipper::shape::{TreeAlgebra, TreeCoalgebra, TreeF};
use splay_zipper::zipper::zip_tree;

fn read(range: &mut BitRange) -> Vec<bool> {
    let n = range.len();
    (0..n).map(|i| range.get(i).unwrap()).collect()
}

fn from_bits(bits: &[u8]) -> BitRange {
    let mut range = BitRange::new(bits.len() as i32);
    for (i, b) in bits.iter().enumerate() {
        range.set(i as i32, *b == 1);
    }
    range
}

fn as_bits(v: &[u8]) -> Vec<bool> {
    v.iter().map(|b| *b == 1).collect()
}

fn bit_leaf(b: bool) -> BitRangeNode {
    bit_node(b, BitRangeNode::Empty, BitRangeNode::Empty)
}

fn bit_node(b: bool, left: BitRangeNode, right: BitRangeNode) -> BitRangeNode {
    BitRangeNode::combine(TreeF::Branch { val: b, left, right })
}

/// The bits of a tree in logical order, with the flags accounted for.
fn logical(t: &BitRangeNode, flip: bool, out: &mut Vec<bool>) {
    if let BitRangeNode::Branch { here, reversed, left, right, .. } = t {
        let flip = flip != *reversed;
        let (first, second) = if flip { (right, left) } else { (left, right) };
        logical(first, flip, out);
        out.push(*here);
        logical(second, flip, out);
    }
}

fn bits_of(t: &BitRangeNode) -> Vec<bool> {
    let mut out = Vec::new();
    logical(t, false, &mut out);
    out
}

fn branches(t: &BitRangeNode) -> i32 {
    match t {
        BitRangeNode::Empty => 0,
        BitRangeNode::Branch { left, right, .. } => 1 + branches(left) + branches(right),
    }
}

fn sizes_hold(t: &BitRangeNode) -> bool {
    match t {
        BitRangeNode::Empty => true,
        BitRangeNode::Branch { size, left, right, .. } => {
            *size == branches(t) && sizes_hold(left) && sizes_hold(right)
        }
    }
}

#[test]
fn sequence_get_and_set() {
    let mut range = BitRange::new(8);
    assert_eq!(read(&mut range), vec![false; 8]);
    range.set(3, true);
    assert_eq!(range.get(3), Some(true));
    assert_eq!(range.get(2), Some(false));
    assert_eq!(range.get(8), None);
}

#[test]
fn full_reverse() {
    let mut range = BitRange::new(4);
    range.set(0, true);
    range.set(1, true);
    assert_eq!(read(&mut range), as_bits(&[1, 1, 0, 0]));
    range.reverse_range(0, 3);
    assert_eq!(read(&mut range), as_bits(&[0, 0, 1, 1]));
}

#[test]
fn interior_reverse() {
    let mut range = from_bits(&[1, 0, 1, 0, 1, 0]);
    assert_eq!(read(&mut range), as_bits(&[1, 0, 1, 0, 1, 0]));
    range.reverse_range(1, 4);
    assert_eq!(read(&mut range), as_bits(&[1, 1, 0, 1, 0, 0]));
}

#[test]
fn prefix_and_suffix_reverse() {
    let mut range = from_bits(&[1, 1, 0, 1, 0, 0]);
    range.reverse_range(0, 2);
    assert_eq!(read(&mut range), as_bits(&[0, 1, 1, 1, 0, 0]));
    range.reverse_range(3, 5);
    assert_eq!(read(&mut range), as_bits(&[0, 1, 1, 0, 0, 1]));
    range.reverse_range(2, 2);
    assert_eq!(read(&mut range), as_bits(&[0, 1, 1, 0, 0, 1]));
}

#[test]
fn double_reverse_restores_every_bit() {
    let start = [1, 0, 0, 1, 1, 1, 0, 1, 0];
    let n = start.len() as i32;
    for i in 0..n {
        for j in i..n {
            let mut range = from_bits(&start);
            range.reverse_range(i, j);
            range.reverse_range(i, j);
            assert_eq!(read(&mut range), as_bits(&start));
        }
    }
}

#[test]
fn whole_reverse_twice_is_identity() {
    let start = [1, 0, 0, 1, 1, 1, 0];
    let mut range = from_bits(&start);
    let last = range.len() - 1;
    range.reverse_range(0, last);
    let mut turned = as_bits(&start);
    turned.reverse();
    assert_eq!(read(&mut range), turned);
    range.reverse_range(0, last);
    assert_eq!(read(&mut range), as_bits(&start));
}

#[test]
fn set_then_get_gives_the_bit() {
    let mut range = BitRange::new(16);
    for i in 0..16 {
        for b in [true, false, true] {
            range.set(i, b);
            assert_eq!(range.get(i), Some(b));
        }
    }
}

#[test]
fn get_keeps_every_bit() {
    let start = [0, 1, 1, 0, 1, 0, 0, 0, 1, 1];
    for i in -1..11 {
        let mut range = from_bits(&start);
        range.reverse_range(2, 7);
        let before = read(&mut range);
        let _ = range.get(i);
        assert_eq!(read(&mut range), before);
    }
}

#[test]
fn access_brings_the_touched_position_to_the_root() {
    let mut range = from_bits(&[1, 0, 0, 1, 0, 1, 1]);
    assert_eq!(range.root_index(), Some(6));
    for i in [3, 0, 6, 2, 5] {
        let _ = range.get(i);
        assert_eq!(range.root_index(), Some(i));
    }
    range.set(4, true);
    assert_eq!(range.root_index(), Some(4));
    let _ = range.get(-3);
    assert_eq!(range.root_index(), Some(0));
    let _ = range.get(7);
    assert_eq!(range.root_index(), Some(6));
    range.set(100, true);
    assert_eq!(range.root_index(), Some(6));
    range.set(-100, true);
    assert_eq!(range.root_index(), Some(0));
    range.reverse_range(0, 6);
    let _ = range.get(2);
    assert_eq!(range.root_index(), Some(2));
    let mut none = BitRange::new(0);
    let _ = none.get(0);
    assert_eq!(none.root_index(), None);
}

#[test]
fn get_out_of_range_is_none() {
    let mut range = BitRange::new(3);
    assert_eq!(range.get(-1), None);
    assert_eq!(range.get(3), None);
    assert_eq!(range.get(i32::MAX), None);
    assert_eq!(range.get(i32::MIN), None);
    assert_eq!(range.get(0), Some(false));
    assert_eq!(range.get(2), Some(false));
}

#[test]
fn set_out_of_range_changes_nothing() {
    let mut range = from_bits(&[1, 0, 1]);
    range.set(3, true);
    range.set(-1, true);
    range.set(i32::MAX, true);
    assert_eq!(range.len(), 3);
    assert_eq!(read(&mut range), as_bits(&[1, 0, 1]));
}

#[test]
fn reverse_out_of_range_changes_nothing() {
    let mut range = from_bits(&[1, 0, 0, 1, 0]);
    range.reverse_range(-1, 2);
    range.reverse_range(3, 2);
    range.reverse_range(1, 5);
    range.reverse_range(0, i32::MAX);
    range.reverse_range(i32::MIN, 4);
    assert_eq!(read(&mut range), as_bits(&[1, 0, 0, 1, 0]));
}

#[test]
fn new_has_the_length_asked_for() {
    assert_eq!(BitRange::new(0).len(), 0);
    assert_eq!(BitRange::new(-5).len(), 0);
    assert_eq!(BitRange::new(1).len(), 1);
    let mut range = BitRange::new(1000);
    assert_eq!(range.len(), 1000);
    assert_eq!(read(&mut range), vec![false; 1000]);
    let mut none = BitRange::new(0);
    assert_eq!(none.get(0), None);
    none.set(0, true);
    none.reverse_range(0, 0);
    assert_eq!(none.len(), 0);
}

#[test]
fn sequence_follows_a_plain_vector() {
    let n = 57;
    let mut range = BitRange::new(n);
    let mut model = vec![false; n as usize];
    let mut state: u32 = 2024;
    let mut next = |bound: i32| {
        state = state.wrapping_mul(1103515245).wrapping_add(12345);
        ((state >> 16) % (bound as u32)) as i32
    };
    for round in 0..3000 {
        match round % 3 {
            0 => {
                let i = next(n);
                let b = next(2) == 1;
                range.set(i, b);
                model[i as usize] = b;
            }
            1 => {
                let a = next(n);
                let b = next(n);
                let (i, j) = if a <= b { (a, b) } else { (b, a) };
                range.reverse_range(i, j);
                model[i as usize..=j as usize].reverse();
            }
            _ => {
                let i = next(n);
                assert_eq!(range.get(i), Some(model[i as usize]));
            }
        }
        if round % 97 == 0 {
            assert_eq!(read(&mut range), model);
        }
    }
    assert_eq!(read(&mut range), model);
}

#[test]
fn size_counts_the_branches() {
    let t = bit_node(true, bit_node(false, bit_leaf(true), BitRangeNode::Empty), bit_leaf(false));
    assert_eq!(get_size(&t), 4);
    assert_eq!(get_size(&BitRangeNode::Empty), 0);
    assert_eq!(get_size(&bit_leaf(true)), 1);
    assert!(sizes_hold(&t));
    assert_eq!(bits_of(&t).len(), 4);
}

#[test]
fn sizes_hold_in_every_zipper_result() {
    let mut t = BitRangeNode::Empty;
    for k in 0..9 {
        t = bit_node(k % 2 == 0, t, bit_leaf(k % 3 == 0));
    }
    let order = bits_of(&t);
    for i in 0..order.len() as i32 {
        for j in i..order.len() as i32 {
            let z = isolate_interval(t, i, j);
            assert!(sizes_hold(&z.here));
            assert_eq!(bits_of(&z.here), order[i as usize..=j as usize].to_vec());
            assert_eq!(get_size(&z.here), j - i + 1);
            t = zip_tree(z);
            assert!(sizes_hold(&t));
            assert_eq!(get_size(&t), order.len() as i32);
            assert_eq!(bits_of(&t), order);
        }
    }
}

#[test]
fn reversed_toggles_the_flag_at_the_root_only() {
    let t = bit_node(true, bit_leaf(false), bit_leaf(true));
    let r = BitRangeNode::reversed(t);
    match &r {
        BitRangeNode::Branch { here, size, reversed, left, right } => {
            assert_eq!((*here, *size, *reversed), (true, 3, true));
            assert!(matches!(**left, BitRangeNode::Branch { here: false, reversed: false, .. }));
            assert!(matches!(**right, BitRangeNode::Branch { here: true, reversed: false, .. }));
        }
        BitRangeNode::Empty => panic!("a branch was flipped"),
    }
    assert_eq!(bits_of(&r), vec![true, true, false]);
    let rr = BitRangeNode::reversed(r);
    assert!(matches!(rr, BitRangeNode::Branch { reversed: false, .. }));
    assert!(matches!(BitRangeNode::reversed(BitRangeNode::Empty), BitRangeNode::Empty));
}

#[test]
fn separate_pushes_the_reversal_one_level_down() {
    let t = bit_node(true, bit_node(false, bit_leaf(true), BitRangeNode::Empty), bit_leaf(false));
    let order = bits_of(&t);
    let r = BitRangeNode::reversed(t);
    let mut turned = order.clone();
    turned.reverse();
    assert_eq!(bits_of(&r), turned);
    assert!(BitRangeNode::is_branch(&r));
    match BitRangeNode::separate(r) {
        TreeF::Branch { val, left, right } => {
            assert_eq!(val, true);
            // the stored right child comes out on the left, and both are flagged
            assert!(matches!(left, BitRangeNode::Branch { here: false, size: 1, reversed: true, .. }));
            assert!(matches!(right, BitRangeNode::Branch { here: false, size: 2, reversed: true, .. }));
            let mut together = bits_of(&left);
            together.push(val);
            together.extend(bits_of(&right));
            assert_eq!(together, turned);
        }
        TreeF::Empty => panic!("a branch was taken apart"),
    }
    assert!(matches!(BitRangeNode::separate(BitRangeNode::Empty), TreeF::Empty));
    assert!(!BitRangeNode::is_branch(&BitRangeNode::Empty));
}

#[test]
fn combine_stores_size_and_clears_the_flag() {
    let l = BitRangeNode::reversed(bit_node(true, bit_leaf(true), bit_leaf(false)));
    let t = bit_node(false, l, bit_leaf(true));
    match &t {
        BitRangeNode::Branch { here, size, reversed, left, .. } => {
            assert_eq!((*here, *size, *reversed), (false, 5, false));
            assert!(matches!(**left, BitRangeNode::Branch { reversed: true, size: 3, .. }));
        }
        BitRangeNode::Empty => panic!("a branch was built"),
    }
    assert!(matches!(BitRangeNode::combine(TreeF::Empty), BitRangeNode::Empty));
}

#[test]
fn find_index_descends_by_sizes() {
    let mut t = BitRangeNode::Empty;
    for k in 0..7 {
        t = bit_node(k == 3, t, BitRangeNode::Empty);
    }
    let order = bits_of(&t);
    for i in 0..7 {
        let z = find_index(t, i);
        match &z.here {
            BitRangeNode::Branch { here, reversed, left, .. } => {
                assert_eq!(*here, order[i as usize]);
                assert_eq!(*reversed, false);
                let before: i32 = z
                    .path
                    .iter()
                    .map(|s| match s.direction {
                        splay_zipper::zipper::Direction::Right => get_size(&s.sibling) + 1,
                        splay_zipper::zipper::Direction::Left => 0,
                    })
                    .sum();
                assert_eq!(before + get_size(left), i);
            }
            BitRangeNode::Empty => panic!("position {} is in range", i),
        }
        t = zip_tree(z);
        assert_eq!(bits_of(&t), order);
    }
    let z = find_index(t, 7);
    assert!(matches!(z.here, BitRangeNode::Empty));
    assert!(z.path.iter().all(|s| matches!(s.direction, splay_zipper::zipper::Direction::Right)));
    let z = find_index(zip_tree(z), -1);
    assert!(matches!(z.here, BitRangeNode::Empty));
    assert!(z.path.iter().all(|s| matches!(s.direction, splay_zipper::zipper::Direction::Left)));
    assert_eq!(bits_of(&zip_tree(z)), order);
}

#[test]
fn find_index_sees_through_pending_reversals() {
    let t = bit_node(false, bit_node(true, bit_leaf(true), BitRangeNode::Empty), bit_leaf(false));
    // stored order 1 1 0 0, logical order 0 0 1 1
    let mut t = BitRangeNode::reversed(t);
    let want = [false, false, true, true];
    for i in 0..4 {
        let z = find_index(t, i);
        assert!(matches!(z.here, BitRangeNode::Branch { here, .. } if here == want[i as usize]));
        t = zip_tree(z);
        assert_eq!(bits_of(&t), want.to_vec());
    }
}
