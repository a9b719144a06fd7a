use avl_tree::monoid::Monoid;
use avl_tree::tree::Tree;

fn build(values: &[i64]) -> Tree<i64> {
    let mut t: Tree<i64> = Tree::Empty;
    for v in values {
        t.insert(*v);
    }
    t
}

fn values_of(t: &Tree<i64>) -> Vec<i64> {
    let mut out = Vec::new();
    t.gather_in_order(&mut out);
    out
}

// Checks every invariant at every node and returns (height, size, aggregate).
fn audit(t: &Tree<i64>) -> (usize, usize, i64) {
    match t {
        Tree::Empty => (0, 0, 0),
        Tree::Node(n) => {
            let (lh, ls, la) = audit(&n.left);
            let (rh, rs, ra) = audit(&n.right);
            assert!(lh <= rh + 1 && rh <= lh + 1, "unbalanced at {}", n.val);
            assert_eq!(n.height, 1 + lh.max(rh));
            assert_eq!(n.size, 1 + ls + rs);
            assert_eq!(n.sum, n.val.mappend(la.mappend(ra)));
            if !n.left.is_empty() {
                assert!(n.left.max() < n.val);
            }
            if !n.right.is_empty() {
                assert!(n.val < n.right.min());
            }
            (n.height, n.size, n.sum)
        }
    }
}

#[test]
fn insert_one_to_seven_in_increasing_order() {
    let t = build(&[1, 2, 3, 4, 5, 6, 7]);
    audit(&t);
    assert!(t.height() <= 4);
    assert_eq!(t.height(), 3);
    assert_eq!(t.size(), 7);
    assert_eq!(t.in_order(), "1 2 3 4 5 6 7");
}

#[test]
fn range_sum_of_twenty_to_forty() {
    let t = build(&[10, 20, 30, 40, 50]);
    audit(&t);
    assert_eq!(t.mappend_from_to(20, 40), 90);
}

#[test]
fn delete_root_of_three_nodes() {
    let mut t = build(&[5, 3, 8]);
    assert_eq!(t.fmt_display(), "[ [ 3 ] 5 [ 8 ] ]");
    t.delete(5);
    audit(&t);
    assert_eq!(values_of(&t), vec![3, 8]);
    assert!(t.find(3));
    assert!(t.find(8));
    assert!(!t.find(5));
    assert_eq!(t.size(), 2);
    assert_eq!(t.height(), 2);
    // the smallest value of the right subtree takes the root's place
    assert_eq!(t.fmt_display(), "[ [ 3 ] 8 ]");
}

#[test]
fn divide_one_to_ten_at_five() {
    let t = build(&[1, 2, 3, 4, 5, 6, 7, 8, 9, 10]);
    let (low, high) = t.divide(5);
    audit(&low);
    audit(&high);
    assert_eq!(values_of(&low), vec![1, 2, 3, 4, 5]);
    assert_eq!(values_of(&high), vec![6, 7, 8, 9, 10]);
}

#[test]
fn single_rotation_to_the_right() {
    let t = build(&[3, 2, 1]);
    audit(&t);
    assert_eq!(t.fmt_display(), "[ [ 1 ] 2 [ 3 ] ]");
}

#[test]
fn single_rotation_to_the_left() {
    let t = build(&[1, 2, 3]);
    audit(&t);
    assert_eq!(t.fmt_display(), "[ [ 1 ] 2 [ 3 ] ]");
}

#[test]
fn double_rotation_to_the_right() {
    let t = build(&[3, 1, 2]);
    audit(&t);
    assert_eq!(t.fmt_display(), "[ [ 1 ] 2 [ 3 ] ]");
}

#[test]
fn double_rotation_to_the_left() {
    let t = build(&[1, 3, 2]);
    audit(&t);
    assert_eq!(t.fmt_display(), "[ [ 1 ] 2 [ 3 ] ]");
}

#[test]
fn rotate_leaves_a_balanced_node_in_place() {
    let t = build(&[2, 1, 3]);
    let r = t.clone().rotate();
    assert!(r == t);
}

#[test]
fn rotate_lifts_the_taller_side() {
    // a chain 3 -> 2 -> 1 down the left, with true cached fields
    let one = Tree::from_value(1i64);
    let two = Tree::from_parts(2i64, one, Tree::Empty);
    let three = Tree::from_parts(3i64, two, Tree::Empty);
    assert_eq!(three.height(), 3);
    let r = three.rotate();
    audit(&r);
    assert_eq!(r.height(), 2);
    assert_eq!(r.fmt_display(), "[ [ 1 ] 2 [ 3 ] ]");
}

#[test]
fn rotate_keeps_the_values_of_a_node_that_leans_by_three() {
    let left = build(&[2, 1, 3, 4]);
    assert_eq!(left.height(), 3);
    let node = Tree::from_parts(9i64, left, Tree::Empty);
    let r = node.rotate();
    assert_eq!(values_of(&r), vec![1, 2, 3, 4, 9]);
    // the left subtree leans to the right, so its right subtree's root rises
    assert_eq!(r.fmt_display(), "[ [ [ 1 ] 2 ] 3 [ [ 4 ] 9 ] ]");
    assert_eq!(r.size(), 5);
    assert_eq!(r.sum(), 19);
    assert_eq!(r.height(), 3);
}

#[test]
fn balance_rebalances_in_place() {
    let three = Tree::from_value(3i64);
    let two = Tree::from_parts(2i64, Tree::Empty, three);
    let mut one = Tree::from_parts(1i64, Tree::Empty, two);
    one.balance();
    audit(&one);
    assert_eq!(one.fmt_display(), "[ [ 1 ] 2 [ 3 ] ]");
}

#[test]
fn update_recomputes_the_cached_fields() {
    let left = Tree::from_value(1i64);
    let right = Tree::from_value(5i64);
    let mut stale = Tree::from_raw_parts(3i64, left, right, 0, 0, 0);
    assert_eq!(stale.height(), 0);
    stale.update();
    assert_eq!(stale.height(), 2);
    assert_eq!(stale.size(), 3);
    assert_eq!(stale.sum(), 9);
    audit(&stale);
}

#[test]
fn upd_of_the_empty_tree_is_empty() {
    let t: Tree<i64> = Tree::Empty;
    assert!(t.upd().is_empty());
}

#[test]
fn many_insertions_and_deletions_keep_every_invariant() {
    let mut t: Tree<i64> = Tree::Empty;
    let mut expected: Vec<i64> = Vec::new();
    let mut x: i64 = 17;
    for _ in 0..400 {
        x = (x * 73 + 41) % 211;
        t.insert(x);
        if !expected.contains(&x) {
            expected.push(x);
        }
        audit(&t);
    }
    expected.sort();
    assert_eq!(values_of(&t), expected);
    let mut y: i64 = 5;
    for _ in 0..300 {
        y = (y * 31 + 7) % 211;
        t.delete(y);
        expected.retain(|v| *v != y);
        audit(&t);
        assert_eq!(t.size(), expected.len());
    }
    assert_eq!(values_of(&t), expected);
}
