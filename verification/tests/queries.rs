use avl_tree::tree::Tree;

fn grown(values: &[i64]) -> Tree<i64> {
    let mut t: Tree<i64> = Tree::Empty;
    for v in values {
        t.insert(*v);
    }
    t
}

fn listed(t: &Tree<i64>) -> Vec<i64> {
    let mut out = Vec::new();
    t.gather_in_order(&mut out);
    out
}

fn scan(values: &[i64], lo: i64, hi: i64) -> i64 {
    let mut sum: i64 = 0;
    for v in values {
        if lo <= *v && *v <= hi {
            sum = sum.wrapping_add(*v);
        }
    }
    sum
}

#[test]
fn find_on_the_empty_tree_is_false() {
    let t: Tree<i64> = Tree::Empty;
    assert!(!t.find(1));
}

#[test]
fn find_tells_present_from_absent() {
    let t = grown(&[50, 20, 70, 10, 30, 60, 80]);
    for v in [10, 20, 30, 50, 60, 70, 80] {
        assert!(t.find(v));
    }
    for v in [0, 15, 25, 55, 75, 90, -3] {
        assert!(!t.find(v));
    }
}

#[test]
fn index_gives_the_values_in_increasing_order() {
    let t = grown(&[50, 20, 70, 10, 30, 60, 80]);
    let expected = [10, 20, 30, 50, 60, 70, 80];
    for i in 0..expected.len() {
        assert_eq!(t.index(i), expected[i]);
    }
    for i in 0..expected.len() {
        for j in (i + 1)..expected.len() {
            assert!(t.index(i) < t.index(j));
        }
    }
}

#[test]
fn min_and_max_are_the_ends() {
    let t = grown(&[50, 20, 70, 10, 30, 60, 80]);
    assert_eq!(t.min(), 10);
    assert_eq!(t.max(), 80);
    let one = grown(&[4]);
    assert_eq!(one.min(), 4);
    assert_eq!(one.max(), 4);
}

#[test]
fn size_counts_the_distinct_values() {
    let t = grown(&[5, 1, 5, 3, 1, 9, 3, 5]);
    assert_eq!(t.size(), 4);
    let mut found = 0;
    for v in 0..12 {
        if t.find(v) {
            found += 1;
        }
    }
    assert_eq!(found, 4);
    let empty: Tree<i64> = Tree::Empty;
    assert_eq!(empty.size(), 0);
    assert_eq!(empty.height(), 0);
    assert_eq!(empty.sum(), 0);
}

#[test]
fn sum_is_the_sum_of_all_values() {
    let t = grown(&[10, 20, 30, 40, 50]);
    assert_eq!(t.sum(), 150);
}

#[test]
fn sum_wraps_around() {
    let t = grown(&[i64::MAX, 1]);
    assert_eq!(t.sum(), i64::MIN);
}

#[test]
fn inserting_twice_changes_nothing() {
    let mut once = grown(&[8, 3, 10, 1, 6]);
    once.insert(6);
    let mut twice = once.clone();
    twice.insert(6);
    assert!(twice == once);
    assert_eq!(listed(&twice), listed(&once));
    assert_eq!(twice.sum(), once.sum());
}

#[test]
fn inserting_a_new_value_on_an_empty_tree_gives_a_leaf() {
    let mut t: Tree<i64> = Tree::Empty;
    t.insert(9);
    assert!(t == Tree::from_value(9));
    assert!(Tree::Empty.ins(9i64) == Tree::from_value(9));
}

#[test]
fn deleting_an_absent_value_changes_nothing() {
    let t = grown(&[8, 3, 10, 1, 6]);
    let mut after = t.clone();
    after.delete(7);
    assert!(after == t);
    let mut empty: Tree<i64> = Tree::Empty;
    empty.delete(7);
    assert!(empty.is_empty());
    assert!(t.clone().del(7) == t);
}

#[test]
fn deleting_a_leaf_and_a_node_with_one_subtree() {
    let mut t = grown(&[8, 3, 10, 1]);
    assert_eq!(t.fmt_display(), "[ [ [ 1 ] 3 ] 8 [ 10 ] ]");
    t.delete(3);
    assert_eq!(t.fmt_display(), "[ [ 1 ] 8 [ 10 ] ]");
    t.delete(10);
    assert_eq!(t.fmt_display(), "[ [ 1 ] 8 ]");
    t.delete(1);
    assert_eq!(t.fmt_display(), "[ 8 ]");
    t.delete(8);
    assert!(t.is_empty());
}

#[test]
fn deletion_rebalances() {
    let mut t = grown(&[5, 3, 8, 9]);
    t.delete(3);
    assert_eq!(t.height(), 2);
    assert_eq!(t.fmt_display(), "[ [ 5 ] 8 [ 9 ] ]");
}

#[test]
fn range_matches_a_scan() {
    let values = [10, 20, 30, 40, 50, 60, 70, 80, 90, 100, 110, 120];
    let t = grown(&values);
    let bounds = [0, 5, 10, 15, 20, 35, 40, 55, 60, 95, 100, 115, 120, 130];
    for lo in bounds {
        for hi in bounds {
            assert_eq!(t.mappend_from_to(lo, hi), scan(&values, lo, hi), "{} ..= {}", lo, hi);
        }
    }
}

#[test]
fn range_that_begins_between_the_left_subtree_and_the_root() {
    let t = grown(&[10, 20, 30, 40, 50]);
    assert_eq!(t.mappend_from_to(15, 40), 90);
    assert_eq!(t.mappend_from_to(20, 45), 90);
}

#[test]
fn range_outside_the_values_gives_the_identity() {
    let t = grown(&[10, 20, 30, 40, 50]);
    assert_eq!(t.mappend_from_to(51, 90), 0);
    assert_eq!(t.mappend_from_to(-5, 9), 0);
    assert_eq!(t.mappend_from_to(40, 20), 0);
    assert_eq!(t.mappend_from_to(21, 29), 0);
    let leaf = grown(&[30]);
    assert_eq!(leaf.mappend_from_to(35, 40), 0);
    assert_eq!(leaf.mappend_from_to(30, 30), 30);
    let empty: Tree<i64> = Tree::Empty;
    assert_eq!(empty.mappend_from_to(0, 100), 0);
}

#[test]
fn range_over_everything_is_the_whole_aggregate() {
    let t = grown(&[10, 20, 30, 40, 50]);
    assert_eq!(t.mappend_from_to(i64::MIN, i64::MAX), 150);
    assert_eq!(t.mappend_from_to(10, 50), 150);
}
