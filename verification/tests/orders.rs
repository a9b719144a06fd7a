use avl_tree::monoid::Monoid;
use avl_tree::monoid::Ordered;
use avl_tree::text::Render;
use avl_tree::tree::Tree;

fn sown(values: &[i64]) -> Tree<Option<i64>> {
    let mut t: Tree<Option<i64>> = Tree::Empty;
    for v in values {
        t.insert(Some(*v));
    }
    t
}

#[test]
fn first_keeps_the_left_number() {
    assert_eq!(Some(1i64).mappend(Some(2)), Some(1));
    assert_eq!(Some(2i64).mappend(Some(1)), Some(2));
    assert_eq!(None.mappend(Some(2i64)), Some(2));
    assert_eq!(Some(2i64).mappend(None), Some(2));
    assert_eq!(<Option<i64> as Monoid>::MEMPTY, None);
}

#[test]
fn nothing_comes_before_every_number() {
    assert!(None.less(&Some(i64::MIN)));
    assert!(!Some(i64::MIN).less(&None));
    assert!(!None::<i64>.less(&None));
    assert!(Some(1i64).less(&Some(2)));
    assert!(!Some(2i64).less(&Some(2)));
    assert!(Some(2i64).same(&Some(2)));
    assert!(!Some(2i64).same(&Some(3)));
    assert!(!Some(2i64).same(&None));
    assert!(None::<i64>.same(&None));
}

#[test]
fn integers_compare_as_integers() {
    assert!((-3i64).less(&2));
    assert!(!2i64.less(&2));
    assert!(!3i64.less(&2));
    assert!(2i64.same(&2));
    assert!(!2i64.same(&-2));
    assert_eq!(<i64 as Monoid>::MEMPTY, 0);
    assert_eq!(2i64.mappend(3), 5);
    assert_eq!(i64::MIN.mappend(-1), i64::MAX);
}

#[test]
fn optional_numbers_as_text() {
    assert_eq!(Some(-12i64).render(), "-12");
    assert_eq!(None::<i64>.render(), "_");
}

#[test]
fn the_aggregate_takes_each_node_before_its_subtrees() {
    // the root of the three is 2: it comes first, not the smallest value
    let t = sown(&[1, 2, 3]);
    assert_eq!(t.fmt_display(), "[ [ 1 ] 2 [ 3 ] ]");
    assert_eq!(t.sum(), Some(2));
    let t = sown(&[1, 2, 3, 4, 5, 6, 7]);
    assert_eq!(t.pre_order(), "4 2 1 3 6 5 7");
    assert_eq!(t.sum(), Some(4));
    let (_, left, right) = t.destruct();
    assert_eq!(left.sum(), Some(2));
    assert_eq!(right.sum(), Some(6));
}

#[test]
fn the_range_aggregate_takes_each_node_before_its_subtrees() {
    let t = sown(&[1, 2, 3, 4, 5, 6, 7]);
    assert_eq!(t.mappend_from_to(Some(1), Some(7)), Some(4));
    assert_eq!(t.mappend_from_to(Some(1), Some(3)), Some(2));
    assert_eq!(t.mappend_from_to(Some(5), Some(7)), Some(6));
    assert_eq!(t.mappend_from_to(Some(3), Some(3)), Some(3));
    assert_eq!(t.mappend_from_to(Some(3), Some(5)), Some(4));
    assert_eq!(t.mappend_from_to(Some(5), Some(6)), Some(6));
    assert_eq!(t.mappend_from_to(Some(8), Some(9)), None);
    assert_eq!(t.mappend_from_to(None, None), None);
    assert_eq!(t.mappend_from_to(None, Some(1)), Some(1));
}

#[test]
fn nothing_can_be_a_value_of_the_tree() {
    let mut t = sown(&[4, 9]);
    t.insert(None);
    assert_eq!(t.in_order(), "_ 4 9");
    assert_eq!(t.min(), None);
    assert!(t.find(None));
    assert_eq!(t.size(), 3);
    t.delete(None);
    assert!(!t.find(None));
    assert_eq!(t.in_order(), "4 9");
}

#[test]
fn a_thousand_values_in_increasing_order_stay_low() {
    let mut t: Tree<i64> = Tree::Empty;
    for v in 0..1000 {
        t.insert(v);
    }
    assert_eq!(t.size(), 1000);
    // a tree of height 15 would need at least 1596 values
    assert!(t.height() <= 14);
    assert_eq!(t.index(0), 0);
    assert_eq!(t.index(999), 999);
    assert_eq!(t.sum(), 499500);
}
