use avl_tree::text::dels;
use avl_tree::text::digit;
use avl_tree::text::is_ascii_space;
use avl_tree::text::join_texts;
use avl_tree::text::push_decimal;
use avl_tree::text::push_signed_decimal;
use avl_tree::text::Render;
use avl_tree::tree::Tree;

fn planted(values: &[i64]) -> Tree<i64> {
    let mut t: Tree<i64> = Tree::Empty;
    for v in values {
        t.insert(*v);
    }
    t
}

#[test]
fn dels_squeezes_white_space() {
    assert_eq!(dels(String::from("  a   b \t\n c  ")), "a b c");
    assert_eq!(dels(String::from("[  1  ]")), "[ 1 ]");
    assert_eq!(dels(String::from("")), "");
    assert_eq!(dels(String::from(" \r\n\t\x0C ")), "");
    assert_eq!(dels(String::from("word")), "word");
    assert_eq!(dels(String::from("a\u{a0}b")), "a\u{a0}b");
}

#[test]
fn ascii_white_space_is_five_characters() {
    for c in [' ', '\t', '\n', '\x0C', '\r'] {
        assert!(is_ascii_space(c));
    }
    for c in ['a', '0', '\x0B', '\u{a0}', '-'] {
        assert!(!is_ascii_space(c));
    }
}

#[test]
fn decimal_digits() {
    assert_eq!(digit(0), '0');
    assert_eq!(digit(9), '9');
    let mut s = String::from("n=");
    push_decimal(0, &mut s);
    assert_eq!(s, "n=0");
    let mut s = String::new();
    push_decimal(1203, &mut s);
    assert_eq!(s, "1203");
    let mut s = String::new();
    push_decimal(u64::MAX, &mut s);
    assert_eq!(s, "18446744073709551615");
}

#[test]
fn signed_decimal_digits() {
    let mut s = String::new();
    push_signed_decimal(-45, &mut s);
    assert_eq!(s, "-45");
    let mut s = String::new();
    push_signed_decimal(i64::MIN, &mut s);
    assert_eq!(s, "-9223372036854775808");
    assert_eq!(7i64.render(), "7");
    assert_eq!(0i64.render(), "0");
    assert_eq!((-1i64).render(), "-1");
    assert_eq!(i64::MAX.render(), "9223372036854775807");
}

#[test]
fn join_texts_puts_single_spaces() {
    assert_eq!(join_texts(&vec![3i64, -4, 5]), "3 -4 5");
    assert_eq!(join_texts(&vec![3i64]), "3");
    assert_eq!(join_texts(&Vec::<i64>::new()), "");
}

#[test]
fn the_three_walks() {
    let t = planted(&[4, 2, 6, 1, 3, 5, 7]);
    assert_eq!(t.in_order(), "1 2 3 4 5 6 7");
    assert_eq!(t.pre_order(), "4 2 1 3 6 5 7");
    assert_eq!(t.post_order(), "1 3 2 5 7 6 4");
    let empty: Tree<i64> = Tree::Empty;
    assert_eq!(empty.in_order(), "");
    assert_eq!(empty.pre_order(), "");
    assert_eq!(empty.post_order(), "");
}

#[test]
fn gathering_appends() {
    let t = planted(&[2, 1, 3]);
    let mut out = vec![9i64];
    t.gather_in_order(&mut out);
    t.gather_pre_order(&mut out);
    t.gather_post_order(&mut out);
    assert_eq!(out, vec![9, 1, 2, 3, 2, 1, 3, 1, 3, 2]);
}

#[test]
fn display_form() {
    let empty: Tree<i64> = Tree::Empty;
    assert_eq!(empty.fmt_display(), "");
    assert_eq!(planted(&[5]).fmt_display(), "[ 5 ]");
    assert_eq!(planted(&[5, 3]).fmt_display(), "[ [ 3 ] 5 ]");
    assert_eq!(planted(&[5, 8]).fmt_display(), "[ 5 [ 8 ] ]");
    assert_eq!(
        planted(&[4, 2, 6, 1, 3, 5, 7]).fmt_display(),
        "[ [ [ 1 ] 2 [ 3 ] ] 4 [ [ 5 ] 6 [ 7 ] ] ]"
    );
    assert_eq!(planted(&[-5, -3]).fmt_display(), "[ -5 [ -3 ] ]");
}

#[test]
fn debug_form() {
    let empty: Tree<i64> = Tree::Empty;
    assert_eq!(empty.fmt_debug(), "");
    assert_eq!(planted(&[5]).fmt_debug(), "[ (5,1) ]");
    assert_eq!(planted(&[5, 3, 8]).fmt_debug(), "[ [ (3,1) ] (5,2) [ (8,1) ] ]");
    assert_eq!(planted(&[5, 3]).fmt_debug(), "[ [ (3,1) ] (5,2) ]");
    let raw = Tree::from_raw_parts(7i64, Tree::Empty, Tree::Empty, 12, 1, 7);
    assert_eq!(raw.fmt_debug(), "[ (7,12) ]");
}

#[test]
fn writing_appends_the_unsqueezed_form() {
    let mut s = String::from(">");
    planted(&[5, 3]).write_bracketed(&mut s);
    assert_eq!(s, ">[ [  3  ] 5  ]");
    let mut s = String::from(">");
    planted(&[5]).write_bracketed_debug(&mut s);
    assert_eq!(s, ">[  (5,1)  ]");
}
