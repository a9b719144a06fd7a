//! Text: the textual form of values, of walks over a tree, and of a tree's
//! shape.

use vstd::prelude::*;
use vstd::string::StringExecFns;
use crate::monoid::Monoid;
use crate::monoid::Ordered;
use crate::tree::Tree;

verus! {

/// A value that has a textual form.
pub trait Render: Sized {
    /// The textual form of a value.
    spec fn text(self) -> Seq<char>;

    /// Writes out the textual form.
    fn render(&self) -> (s: String)
        ensures
            s@ == self.text(),
    ;
}

/// The ASCII white space: space, tab, line feed, form feed, carriage return.
pub open spec fn is_space(c: char) -> bool {
    c == ' ' || c == '\t' || c == '\n' || c == '\x0C' || c == '\r'
}

/// The words of a text: its longest runs of characters that are not white
/// space, from left to right.
pub open spec fn words_of(s: Seq<char>) -> Seq<Seq<char>>
    decreases s.len(),
{
    if s.len() == 0 {
        Seq::empty()
    } else {
        let before = words_of(s.drop_last());
        if is_space(s.last()) {
            before
        } else if s.len() >= 2 && !is_space(s[s.len() - 2]) && before.len() > 0 {
            before.drop_last().push(before.last().push(s.last()))
        } else {
            before.push(seq![s.last()])
        }
    }
}

/// The words with one space between each two neighbours.
pub open spec fn spaced(words: Seq<Seq<char>>) -> Seq<char>
    decreases words.len(),
{
    if words.len() == 0 {
        Seq::empty()
    } else if words.len() == 1 {
        words[0]
    } else {
        spaced(words.drop_last()) + seq![' '] + words.last()
    }
}

/// The text with each run of white space made one space, and none at
/// either end.
pub open spec fn squeezed(s: Seq<char>) -> Seq<char> {
    spaced(words_of(s))
}

/// The textual forms of the values of `s`.
pub open spec fn texts<T: Render>(s: Seq<T>) -> Seq<Seq<char>> {
    s.map_values(|v: T| v.text())
}

/// What one more word adds to the spaced words.
pub proof fn lemma_spaced_push(words: Seq<Seq<char>>, w: Seq<char>)
    ensures
        spaced(words.push(w)) == if words.len() == 0 {
            w
        } else {
            spaced(words) + seq![' '] + w
        },
{
    assert(words.push(w).drop_last() =~= words);
}

/// What one more character in the last word adds to the spaced words.
pub proof fn lemma_spaced_extend(words: Seq<Seq<char>>, c: char)
    requires
        words.len() > 0,
    ensures
        spaced(words.drop_last().push(words.last().push(c))) == spaced(words).push(c),
{
    let grown = words.drop_last().push(words.last().push(c));
    assert(grown.drop_last() =~= words.drop_last());
    if words.len() > 1 {
        assert(spaced(grown) =~= spaced(words).push(c));
    }
}

/// Whether `c` is ASCII white space.
pub fn is_ascii_space(c: char) -> (b: bool)
    ensures
        b == is_space(c),
{
    c == ' ' || c == '\t' || c == '\n' || c == '\x0C' || c == '\r'
}

/// The text with each run of ASCII white space made one space, and none at
/// either end.
pub fn dels(string: String) -> (r: String)
    ensures
        r@ == squeezed(string@),
{
    let mut out = String::new();
    let mut in_word = false;
    let mut started = false;
    for c in it: string.as_str().chars()
        invariant
            it.seq() == string@,
            it.index() <= string@.len(),
            out@ == squeezed(string@.take(it.index() as int)),
            started == (words_of(string@.take(it.index() as int)).len() > 0),
            in_word == (it.index() > 0 && !is_space(string@[it.index() - 1])),
            in_word ==> started,
    {
        let ghost before = string@.take(it.index() as int);
        let ghost now = string@.take(it.index() + 1);
        proof {
            assert(now.drop_last() =~= before);
            assert(now.last() == c);
            if words_of(before).len() > 0 {
                lemma_spaced_extend(words_of(before), c);
            }
            lemma_spaced_push(words_of(before), seq![c]);
        }
        if is_ascii_space(c) {
            in_word = false;
        } else {
            if !in_word && started {
                out.push(' ');
            }
            out.push(c);
            in_word = true;
            started = true;
            proof {
                assert(out@ =~= squeezed(now));
            }
        }
    }
    proof {
        assert(string@.take(string@.len() as int) =~= string@);
    }
    out
}

/// The character of a decimal digit.
pub open spec fn digit_char(d: nat) -> char {
    if d == 0 {
        '0'
    } else if d == 1 {
        '1'
    } else if d == 2 {
        '2'
    } else if d == 3 {
        '3'
    } else if d == 4 {
        '4'
    } else if d == 5 {
        '5'
    } else if d == 6 {
        '6'
    } else if d == 7 {
        '7'
    } else if d == 8 {
        '8'
    } else {
        '9'
    }
}

/// A natural number in decimal digits, without leading zeros.
pub open spec fn decimal(n: nat) -> Seq<char>
    decreases n,
{
    if n < 10 {
        seq![digit_char(n)]
    } else {
        decimal(n / 10).push(digit_char(n % 10))
    }
}

/// An integer in decimal digits, with a minus sign before a negative one.
pub open spec fn signed_decimal(v: int) -> Seq<char> {
    if v < 0 {
        seq!['-'] + decimal((-v) as nat)
    } else {
        decimal(v as nat)
    }
}

/// The character of the decimal digit `d`.
pub fn digit(d: u64) -> (c: char)
    requires
        d < 10,
    ensures
        c == digit_char(d as nat),
{
    if d == 0 {
        '0'
    } else if d == 1 {
        '1'
    } else if d == 2 {
        '2'
    } else if d == 3 {
        '3'
    } else if d == 4 {
        '4'
    } else if d == 5 {
        '5'
    } else if d == 6 {
        '6'
    } else if d == 7 {
        '7'
    } else if d == 8 {
        '8'
    } else {
        '9'
    }
}

/// Appends `n` in decimal digits to `out`.
pub fn push_decimal(n: u64, out: &mut String)
    ensures
        final(out)@ == old(out)@ + decimal(n as nat),
    decreases n,
{
    if n >= 10 {
        push_decimal(n / 10, out);
    }
    out.push(digit(n % 10));
    proof {
        assert(final(out)@ =~= old(out)@ + decimal(n as nat));
    }
}

/// Appends `v` in decimal digits to `out`, with a minus sign if negative.
pub fn push_signed_decimal(v: i64, out: &mut String)
    ensures
        final(out)@ == old(out)@ + signed_decimal(v as int),
{
    if v < 0 {
        out.push('-');
        let magnitude: u64 = (0 - (v as i128)) as u64;
        push_decimal(magnitude, out);
    } else {
        push_decimal(v as u64, out);
    }
    proof {
        assert(final(out)@ =~= old(out)@ + signed_decimal(v as int));
    }
}

/// The textual forms of `values` with one space between each two
/// neighbours.
pub fn join_texts<T: Render>(values: &Vec<T>) -> (s: String)
    ensures
        s@ == spaced(texts(values@)),
{
    let mut out = String::new();
    let mut i: usize = 0;
    while i < values.len()
        invariant
            i <= values.len(),
            out@ == spaced(texts(values@.take(i as int))),
        decreases values.len() - i,
    {
        proof {
            assert(texts(values@.take(i + 1)) =~= texts(values@.take(i as int)).push(
                values[i as int].text(),
            ));
            lemma_spaced_push(texts(values@.take(i as int)), values[i as int].text());
        }
        if i > 0 {
            out.push(' ');
        }
        let word = values[i].render();
        out.append(word.as_str());
        i = i + 1;
    }
    proof {
        assert(values@.take(values@.len() as int) =~= values@);
    }
    out
}

impl<T: Monoid + Ordered + Render + Copy> Tree<T> {
    /// The shape of the tree in brackets, before white space is squeezed:
    /// nothing for the empty tree, else `[ left value right ]`.
    pub open spec fn bracketed(self) -> Seq<char>
        decreases self,
    {
        match self {
            Tree::Empty => Seq::empty(),
            Tree::Node(n) => seq!['[', ' '] + n.left.bracketed() + seq![' '] + n.val.text()
                + seq![' '] + n.right.bracketed() + seq![' ', ']'],
        }
    }

    /// As [`Tree::bracketed`], with `(value,height)` in place of each
    /// value, the height being the cached one.
    pub open spec fn bracketed_debug(self) -> Seq<char>
        decreases self,
    {
        match self {
            Tree::Empty => Seq::empty(),
            Tree::Node(n) => seq!['[', ' '] + n.left.bracketed_debug() + seq![' ', '(']
                + n.val.text() + seq![','] + decimal(n.height as nat) + seq![')', ' ']
                + n.right.bracketed_debug() + seq![' ', ']'],
        }
    }

    /// Appends the values in order to `out`.
    pub fn gather_in_order(&self, out: &mut Vec<T>)
        ensures
            final(out)@ == old(out)@ + self@,
        decreases self,
    {
        match self {
            Tree::Empty => {
                proof {
                    assert(old(out)@ + self@ =~= old(out)@);
                }
            },
            Tree::Node(n) => {
                n.left.gather_in_order(out);
                out.push(n.val);
                n.right.gather_in_order(out);
                proof {
                    assert(final(out)@ =~= old(out)@ + self@);
                }
            },
        }
    }

    /// Appends the values to `out`, each node before its subtrees.
    pub fn gather_pre_order(&self, out: &mut Vec<T>)
        ensures
            final(out)@ == old(out)@ + self.pre_order_seq(),
        decreases self,
    {
        match self {
            Tree::Empty => {
                proof {
                    assert(old(out)@ + self.pre_order_seq() =~= old(out)@);
                }
            },
            Tree::Node(n) => {
                out.push(n.val);
                n.left.gather_pre_order(out);
                n.right.gather_pre_order(out);
                proof {
                    assert(final(out)@ =~= old(out)@ + self.pre_order_seq());
                }
            },
        }
    }

    /// Appends the values to `out`, each node after its subtrees.
    pub fn gather_post_order(&self, out: &mut Vec<T>)
        ensures
            final(out)@ == old(out)@ + self.post_order_seq(),
        decreases self,
    {
        match self {
            Tree::Empty => {
                proof {
                    assert(old(out)@ + self.post_order_seq() =~= old(out)@);
                }
            },
            Tree::Node(n) => {
                n.left.gather_post_order(out);
                n.right.gather_post_order(out);
                out.push(n.val);
                proof {
                    assert(final(out)@ =~= old(out)@ + self.post_order_seq());
                }
            },
        }
    }

    /// The values in order, as text, with one space between each two.
    pub fn in_order(&self) -> (s: String)
        ensures
            s@ == spaced(texts(self@)),
    {
        let mut values: Vec<T> = Vec::new();
        self.gather_in_order(&mut values);
        proof {
            assert(values@ =~= self@);
        }
        join_texts(&values)
    }

    /// The values with each node before its subtrees, as text, with one
    /// space between each two.
    pub fn pre_order(&self) -> (s: String)
        ensures
            s@ == spaced(texts(self.pre_order_seq())),
    {
        let mut values: Vec<T> = Vec::new();
        self.gather_pre_order(&mut values);
        proof {
            assert(values@ =~= self.pre_order_seq());
        }
        join_texts(&values)
    }

    /// The values with each node after its subtrees, as text, with one
    /// space between each two.
    pub fn post_order(&self) -> (s: String)
        ensures
            s@ == spaced(texts(self.post_order_seq())),
    {
        let mut values: Vec<T> = Vec::new();
        self.gather_post_order(&mut values);
        proof {
            assert(values@ =~= self.post_order_seq());
        }
        join_texts(&values)
    }

    /// Appends the bracketed shape of the tree to `out`.
    pub fn write_bracketed(&self, out: &mut String)
        ensures
            final(out)@ == old(out)@ + self.bracketed(),
        decreases self,
    {
        match self {
            Tree::Empty => {
                proof {
                    assert(old(out)@ + self.bracketed() =~= old(out)@);
                }
            },
            Tree::Node(n) => {
                out.push('[');
                out.push(' ');
                n.left.write_bracketed(out);
                out.push(' ');
                let word = n.val.render();
                out.append(word.as_str());
                out.push(' ');
                n.right.write_bracketed(out);
                out.push(' ');
                out.push(']');
                proof {
                    assert(final(out)@ =~= old(out)@ + self.bracketed());
                }
            },
        }
    }

    /// Appends the bracketed shape of the tree, with heights, to `out`.
    pub fn write_bracketed_debug(&self, out: &mut String)
        ensures
            final(out)@ == old(out)@ + self.bracketed_debug(),
        decreases self,
    {
        match self {
            Tree::Empty => {
                proof {
                    assert(old(out)@ + self.bracketed_debug() =~= old(out)@);
                }
            },
            Tree::Node(n) => {
                out.push('[');
                out.push(' ');
                n.left.write_bracketed_debug(out);
                out.push(' ');
                out.push('(');
                let word = n.val.render();
                out.append(word.as_str());
                out.push(',');
                push_decimal(n.height as u64, out);
                out.push(')');
                out.push(' ');
                n.right.write_bracketed_debug(out);
                out.push(' ');
                out.push(']');
                proof {
                    assert(final(out)@ =~= old(out)@ + self.bracketed_debug());
                }
            },
        }
    }

    /// The shape of the tree as text: nothing for the empty tree, else
    /// `[ left value right ]` with single spaces, an empty subtree leaving
    /// no trace.
    pub fn fmt_display(&self) -> (s: String)
        ensures
            s@ == squeezed(self.bracketed()),
    {
        let mut raw = String::new();
        self.write_bracketed(&mut raw);
        proof {
            assert(raw@ =~= self.bracketed());
        }
        dels(raw)
    }

    /// The shape of the tree as text, with `(value,height)` for each
    /// node.
    pub fn fmt_debug(&self) -> (s: String)
        ensures
            s@ == squeezed(self.bracketed_debug()),
    {
        let mut raw = String::new();
        self.write_bracketed_debug(&mut raw);
        proof {
            assert(raw@ =~= self.bracketed_debug());
        }
        dels(raw)
    }
}

} // verus!
