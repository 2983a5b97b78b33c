//! Words as text: how they are compared, and how a phrase falls apart into them.
use vstd::prelude::*;
use crate::order;

verus! {

broadcast use vstd::string::group_string_axioms;

/// How one word stands to another.
#[derive(Clone, Copy, PartialEq, Eq, Structural, Debug)]
pub enum Standing {
    Before,
    Same,
    After,
}

/// Compares two words by code point.
pub fn stand(a: &str, b: &str) -> (r: Standing)
    ensures
        r == Standing::Before <==> order::text_order()(a@, b@),
        r == Standing::Same <==> a@ == b@,
        r == Standing::After <==> order::text_order()(b@, a@),
{
    let mut left = a.chars();
    let mut right = b.chars();
    let ghost mut k: int = 0;
    proof {
        assert(a@.take(0) == b@.take(0));
        assert(a@.skip(0) == a@);
        assert(b@.skip(0) == b@);
        order::text_order_is_strict();
    }
    loop
        invariant
            order::is_strict_order(order::text_order()),
            vstd::std_specs::iter::IteratorSpec::obeys_prophetic_iter_laws(&left),
            vstd::std_specs::iter::IteratorSpec::obeys_prophetic_iter_laws(&right),
            0 <= k <= a@.len(),
            k <= b@.len(),
            a@.take(k) == b@.take(k),
            vstd::std_specs::iter::IteratorSpec::remaining(&left) == a@.skip(k),
            vstd::std_specs::iter::IteratorSpec::remaining(&right) == b@.skip(k),
        decreases a@.len() - k,
    {
        let x = left.next();
        let y = right.next();
        match (x, y) {
            (None, None) => {
                assert(a@ == a@.take(k));
                assert(b@ == b@.take(k));
                return Standing::Same;
            },
            (None, Some(d)) => {
                assert(order::precedes_at(order::char_order(), a@, b@, k));
                assert(order::text_order()(a@, b@));
                return Standing::Before;
            },
            (Some(c), None) => {
                assert(order::precedes_at(order::char_order(), b@, a@, k));
                assert(order::text_order()(b@, a@));
                return Standing::After;
            },
            (Some(c), Some(d)) => {
                assert(c == a@[k] && d == b@[k]);
                if c < d {
                    assert(order::precedes_at(order::char_order(), a@, b@, k));
                    assert(order::text_order()(a@, b@));
                    return Standing::Before;
                }
                if d < c {
                    assert(order::precedes_at(order::char_order(), b@, a@, k));
                    assert(order::text_order()(b@, a@));
                    return Standing::After;
                }
                proof {
                    assert(a@.take(k + 1) == a@.take(k).push(c));
                    assert(b@.take(k + 1) == b@.take(k).push(d));
                    assert(a@.skip(k).drop_first() == a@.skip(k + 1));
                    assert(b@.skip(k).drop_first() == b@.skip(k + 1));
                    k = k + 1;
                }
            },
        }
    }
}

/// Whether two words are the same text.
pub fn same_text(a: &str, b: &str) -> (r: bool)
    ensures
        r == (a@ == b@),
{
    stand(a, b) == Standing::Same
}

/// What can stand for a word: a borrowed text or an owned one.
pub trait Word {
    /// The word's text.
    spec fn text(&self) -> Seq<char>;

    /// Borrows the word's text.
    fn as_text(&self) -> (r: &str)
        ensures
            r@ == self.text(),
    ;
}

impl<'a> Word for &'a str {
    open spec fn text(&self) -> Seq<char> {
        (*self)@
    }

    fn as_text(&self) -> (r: &str) {
        *self
    }
}

impl Word for String {
    open spec fn text(&self) -> Seq<char> {
        self@
    }

    fn as_text(&self) -> (r: &str) {
        self.as_str()
    }
}

/// The texts of a list of words.
pub open spec fn texts<T: Word>(words: Seq<T>) -> Seq<Seq<char>> {
    words.map_values(|w: T| w.text())
}

/// What is left of `text` when it is cut at every space: between two spaces, and before the first
/// and after the last, stands one piece, which may be empty.
pub open spec fn pieces(text: Seq<char>) -> Seq<Seq<char>>
    decreases text.len(),
{
    if text.len() == 0 {
        seq![Seq::<char>::empty()]
    } else {
        let before = pieces(text.drop_last());
        if text.last() == ' ' {
            before.push(Seq::<char>::empty())
        } else {
            before.drop_last().push(before.last().push(text.last()))
        }
    }
}

/// Pieces, put together again with a space between any two.
pub open spec fn joined(pieces: Seq<Seq<char>>) -> Seq<char>
    decreases pieces.len(),
{
    if pieces.len() == 0 {
        Seq::<char>::empty()
    } else if pieces.len() == 1 {
        pieces[0]
    } else {
        joined(pieces.drop_last()).push(' ') + pieces.last()
    }
}

/// Cutting a phrase at its spaces gives at least one piece, none of which holds a space, and
/// putting the pieces together again gives the phrase back.
pub proof fn pieces_join_to_the_text(text: Seq<char>)
    ensures
        pieces(text).len() >= 1,
        forall|i: int| 0 <= i < pieces(text).len() ==> !(#[trigger] pieces(text)[i]).contains(' '),
        joined(pieces(text)) == text,
    decreases text.len(),
{
    if text.len() > 0 {
        let head = text.drop_last();
        pieces_join_to_the_text(head);
        let before = pieces(head);
        let now = pieces(text);
        assert(text == head.push(text.last()));
        if text.last() == ' ' {
            assert(now.drop_last() == before);
            assert(joined(now) == joined(before).push(' ') + Seq::<char>::empty());
            assert(joined(now) == text);
        } else {
            assert(now.drop_last() == before.drop_last());
            assert forall|i: int| 0 <= i < now.len() implies !(#[trigger] now[i]).contains(' ') by {
                if i < now.len() - 1 {
                    assert(now[i] == before[i]);
                } else {
                    assert(now[i] == before.last().push(text.last()));
                    if now[i].contains(' ') {
                        let j = choose|j: int| 0 <= j < now[i].len() && now[i][j] == ' ';
                        assert(before.last()[j] == ' ');
                        assert(before[before.len() - 1].contains(' '));
                    }
                }
            }
            if now.len() == 1 {
                assert(joined(now) == text);
            } else {
                let front = joined(before.drop_last()).push(' ');
                assert(front + before.last().push(text.last()) == (front + before.last()).push(text.last()));
                assert(joined(now) == text);
            }
        }
    } else {
        assert(joined(pieces(text)) == text);
    }
}

/// Cuts a phrase at every space.
pub fn split_words<'a>(phrase: &'a str) -> (r: Vec<&'a str>)
    ensures
        texts(r@) == pieces(phrase@),
{
    let mut out: Vec<&'a str> = Vec::new();
    let n: usize = phrase.unicode_len();
    let mut rest = phrase.chars();
    let mut start: usize = 0;
    let mut i: usize = 0;
    proof {
        assert(phrase@.take(0) == Seq::<char>::empty());
        assert(phrase@.subrange(0, 0) == Seq::<char>::empty());
        assert(phrase@.skip(0) == phrase@);
        assert(texts(out@).push(phrase@.subrange(0, 0)) == pieces(phrase@.take(0)));
    }
    while i < n
        invariant
            n == phrase@.len(),
            start <= i <= n,
            vstd::std_specs::iter::IteratorSpec::obeys_prophetic_iter_laws(&rest),
            vstd::std_specs::iter::IteratorSpec::remaining(&rest) == phrase@.skip(i as int),
            texts(out@).push(phrase@.subrange(start as int, i as int)) == pieces(phrase@.take(i as int)),
        decreases n - i,
    {
        let next = rest.next();
        let ghost before = pieces(phrase@.take(i as int));
        let ghost done = out@;
        proof {
            assert(next == Some(phrase@[i as int]));
            assert(phrase@.skip(i as int).drop_first() == phrase@.skip(i + 1));
            assert(phrase@.take(i + 1).drop_last() == phrase@.take(i as int));
            assert(before.drop_last() == texts(done));
            assert(before.last() == phrase@.subrange(start as int, i as int));
        }
        let at_space = next == Some(' ');
        if at_space {
            let word = phrase.substring_char(start, i);
            out.push(word);
            start = i + 1;
            proof {
                assert(texts(out@) == texts(done).push(word@));
                assert(phrase@.subrange(start as int, i + 1) == Seq::<char>::empty());
                assert(texts(out@) == before);
            }
        } else {
            assert(phrase@.subrange(start as int, i + 1) == phrase@.subrange(
                start as int,
                i as int,
            ).push(phrase@[i as int]));
        }
        i = i + 1;
    }
    let word = phrase.substring_char(start, n);
    let ghost done = out@;
    out.push(word);
    proof {
        assert(phrase@.take(n as int) == phrase@);
        assert(texts(out@) == texts(done).push(word@));
    }
    out
}

} // verus!
