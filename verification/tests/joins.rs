use avl_tree::tree::Tree;

fn raised(values: &[i64]) -> Tree<i64> {
    let mut t: Tree<i64> = Tree::Empty;
    for v in values {
        t.insert(*v);
    }
    t
}

fn in_a_row(t: &Tree<i64>) -> Vec<i64> {
    let mut out = Vec::new();
    t.gather_in_order(&mut out);
    out
}

fn balanced(t: &Tree<i64>) -> usize {
    match t {
        Tree::Empty => 0,
        Tree::Node(n) => {
            let l = balanced(&n.left);
            let r = balanced(&n.right);
            assert!(l <= r + 1 && r <= l + 1);
            assert_eq!(n.height, 1 + l.max(r));
            assert_eq!(n.size, 1 + n.left.size() + n.right.size());
            n.height
        }
    }
}

#[test]
fn merge_with_root_of_equal_heights_is_one_node() {
    let l = raised(&[1]);
    let r = raised(&[3]);
    let t = Tree::avl_merge_with_root(2, l, r);
    assert_eq!(t.fmt_display(), "[ [ 1 ] 2 [ 3 ] ]");
    assert_eq!(t.sum(), 6);
}

#[test]
fn merge_with_root_descends_the_taller_left() {
    let l = raised(&[1, 2, 3, 4, 5, 6, 7, 8, 9, 10, 11, 12, 13, 14, 15]);
    let r = raised(&[20]);
    let t = Tree::avl_merge_with_root(17, l, r);
    balanced(&t);
    assert_eq!(
        in_a_row(&t),
        vec![1, 2, 3, 4, 5, 6, 7, 8, 9, 10, 11, 12, 13, 14, 15, 17, 20]
    );
    assert_eq!(t.size(), 17);
}

#[test]
fn merge_with_root_descends_the_taller_right() {
    let l: Tree<i64> = Tree::Empty;
    let r = raised(&[11, 12, 13, 14, 15, 16, 17, 18]);
    let t = Tree::avl_merge_with_root(5, l, r);
    balanced(&t);
    assert_eq!(in_a_row(&t), vec![5, 11, 12, 13, 14, 15, 16, 17, 18]);
}

#[test]
fn merge_of_two_empty_trees_is_empty() {
    let t: Tree<i64> = Tree::avl_merge(Tree::Empty, Tree::Empty);
    assert!(t.is_empty());
}

#[test]
fn merge_with_one_empty_side() {
    let t = Tree::avl_merge(raised(&[1, 2, 3]), Tree::Empty);
    balanced(&t);
    assert_eq!(in_a_row(&t), vec![1, 2, 3]);
    let t = Tree::avl_merge(Tree::Empty, raised(&[1, 2, 3]));
    balanced(&t);
    assert_eq!(in_a_row(&t), vec![1, 2, 3]);
}

#[test]
fn merge_puts_one_after_the_other() {
    let t = Tree::avl_merge(raised(&[1, 2, 3, 4, 5, 6, 7, 8, 9]), raised(&[20, 30]));
    balanced(&t);
    assert_eq!(in_a_row(&t), vec![1, 2, 3, 4, 5, 6, 7, 8, 9, 20, 30]);
    assert_eq!(t.sum(), 95);
}

#[test]
fn divide_then_merge_gives_the_values_back() {
    let values = [4, 8, 15, 16, 23, 42, 50, 61, 77];
    for k in [0, 4, 5, 16, 20, 42, 76, 77, 100] {
        let t = raised(&values);
        let (low, high) = t.divide(k);
        balanced(&low);
        balanced(&high);
        for v in in_a_row(&low) {
            assert!(v <= k);
        }
        for v in in_a_row(&high) {
            assert!(v > k);
        }
        let back = Tree::avl_merge(low, high);
        balanced(&back);
        assert_eq!(in_a_row(&back), values.to_vec());
    }
}

#[test]
fn divide_keeps_the_key_in_the_low_part() {
    let (low, high) = raised(&[1, 2, 3]).divide(2);
    assert_eq!(in_a_row(&low), vec![1, 2]);
    assert_eq!(in_a_row(&high), vec![3]);
}

#[test]
fn divide_of_the_empty_tree() {
    let t: Tree<i64> = Tree::Empty;
    let (low, high) = t.divide(3);
    assert!(low.is_empty());
    assert!(high.is_empty());
}

#[test]
fn from_pair_takes_the_smallest_of_the_right() {
    let t = Tree::from_pair(raised(&[1]), raised(&[5, 4, 6]));
    assert_eq!(t.fmt_display(), "[ [ 1 ] 4 [ 5 [ 6 ] ] ]");
    assert_eq!(t.size(), 4);
    assert_eq!(t.sum(), 16);
}

#[test]
fn destruct_gives_the_root_and_its_subtrees() {
    let (val, left, right) = raised(&[2, 1, 3]).destruct();
    assert_eq!(val, 2);
    assert!(left == Tree::from_value(1));
    assert!(right == Tree::from_value(3));
}

#[test]
fn raw_parts_are_taken_as_given() {
    let t = Tree::from_raw_parts(7i64, Tree::Empty, Tree::Empty, 5, 9, 11);
    assert_eq!(t.height(), 5);
    assert_eq!(t.size(), 9);
    assert_eq!(t.sum(), 11);
    let same: Tree<i64> = Tree::from((7i64, Tree::Empty, Tree::Empty, 5usize, 9usize, 11i64));
    assert!(same == t);
}

#[test]
fn a_value_converts_into_a_leaf() {
    let t: Tree<i64> = Tree::from(4i64);
    assert_eq!(t.height(), 1);
    assert_eq!(t.size(), 1);
    assert_eq!(t.sum(), 4);
    assert!(t == Tree::from_parts(4, Tree::Empty, Tree::Empty));
}
