//! Queries to the phrase graph: the words that may stand in a slot, and how a combination of them
//! is turned back into text.
use vstd::prelude::*;
use crate::text;
use crate::text::Word;

verus! {

/// One word of a query: either a whole word, by its id, with the number of edits that lead to it,
/// or all the words that start in a certain way, by the range of their ids.
#[derive(Clone, Copy, PartialEq, Eq, Debug)]
pub enum QueryWord {
    Full { id: u32, edit_distance: u8 },
    Prefix { id_range: (u32, u32) },
}

impl QueryWord {
    /// A whole word.
    pub fn new_full(id: u32, edit_distance: u8) -> (r: QueryWord)
        ensures
            r == (QueryWord::Full { id, edit_distance }),
    {
        QueryWord::Full { id, edit_distance }
    }

    /// The words of an id range.
    pub fn new_prefix(id_range: (u32, u32)) -> (r: QueryWord)
        ensures
            r == (QueryWord::Prefix { id_range }),
    {
        QueryWord::Prefix { id_range }
    }
}

/// One word that a fuzzy lookup found.
#[derive(Clone, Copy, PartialEq, Eq, Structural, Debug)]
pub struct FuzzyMapLookupResult {
    pub id: u32,
    pub edit_distance: u8,
}

/// The whole word that a fuzzy lookup found, as a query word.
pub open spec fn hit_word(hit: FuzzyMapLookupResult) -> QueryWord {
    QueryWord::Full { id: hit.id, edit_distance: hit.edit_distance }
}

/// The words that may stand in each slot of a phrase.
pub open spec fn slots_of(possibilities: Seq<Vec<QueryWord>>) -> Seq<Seq<QueryWord>> {
    possibilities.map_values(|v: Vec<QueryWord>| v@)
}

/// The number of edits that a query word stands for.
pub open spec fn word_distance(q: QueryWord) -> nat {
    match q {
        QueryWord::Full { id, edit_distance } => edit_distance as nat,
        QueryWord::Prefix { id_range } => 0,
    }
}

/// The number of edits in a combination of words.
pub open spec fn total_distance(combination: Seq<QueryWord>) -> nat
    decreases combination.len(),
{
    if combination.len() == 0 {
        0
    } else {
        total_distance(combination.drop_last()) + word_distance(combination.last())
    }
}

/// `q` can be written out: a whole word is one of the `words`, and a prefix stands only where
/// something was `typed` in its place.
pub open spec fn word_fits(words: int, typed: bool, q: QueryWord) -> bool {
    match q {
        QueryWord::Full { id, edit_distance } => id < words,
        QueryWord::Prefix { id_range } => typed,
    }
}

/// A combination can be written out over a list of `words` words: the word at position `i` either
/// is one of them, or is a prefix for which position `from + i` of the `typed` words stands. The
/// edits add up to a number that a byte holds.
pub open spec fn fits(words: int, typed: int, from: int, combination: Seq<QueryWord>) -> bool {
    &&& forall|i: int|
        0 <= i < combination.len() ==> word_fits(words, from + i < typed, #[trigger] combination[i])
    &&& total_distance(combination) <= u8::MAX
}

/// The text of a combination: a whole word is looked up in `words`, and in place of a prefix
/// stands what was typed, counted from position `from`.
pub open spec fn written_out(
    words: Seq<Seq<char>>,
    typed: Seq<Seq<char>>,
    from: int,
    combination: Seq<QueryWord>,
) -> Seq<Seq<char>> {
    Seq::new(
        combination.len(),
        |i: int|
            match combination[i] {
                QueryWord::Full { id, edit_distance } => words[id as int],
                QueryWord::Prefix { id_range } => typed[from + i],
            },
    )
}

/// Copies a slot.
pub fn copy_slot(v: &Vec<QueryWord>) -> (r: Vec<QueryWord>)
    ensures
        r@ == v@,
{
    let mut out: Vec<QueryWord> = Vec::new();
    let mut i: usize = 0;
    while i < v.len()
        invariant
            i <= v@.len(),
            out@ == v@.take(i as int),
        decreases v@.len() - i,
    {
        out.push(v[i]);
        i = i + 1;
        assert(v@.take(i as int) == v@.take(i - 1).push(v@[i - 1]));
    }
    assert(v@.take(i as int) == v@);
    out
}

proof fn lemma_total_distance_grows(combination: Seq<QueryWord>, n: int)
    requires
        0 <= n <= combination.len(),
    ensures
        total_distance(combination.take(n)) <= total_distance(combination),
    decreases combination.len(),
{
    if n < combination.len() {
        lemma_total_distance_grows(combination.drop_last(), n);
        assert(combination.drop_last().take(n) == combination.take(n));
    } else {
        assert(combination.take(n) == combination);
    }
}

/// Adds up the edits of a combination, if it can be written out.
pub fn checked_distance(words: usize, typed: usize, from: usize, combination: &Vec<QueryWord>) -> (r: Option<u8>)
    ensures
        r is Some <==> fits(words as int, typed as int, from as int, combination@),
        r matches Some(d) ==> d == total_distance(combination@),
{
    let mut sum: u8 = 0;
    let mut i: usize = 0;
    assert(combination@.take(0) == Seq::<QueryWord>::empty());
    while i < combination.len()
        invariant
            i <= combination@.len(),
            forall|j: int|
                0 <= j < i ==> word_fits(words as int, from + j < typed, #[trigger] combination@[j]),
            sum == total_distance(combination@.take(i as int)),
        decreases combination@.len() - i,
    {
        proof {
            assert(combination@.take(i + 1).drop_last() == combination@.take(i as int));
            assert(combination@.take(i + 1).last() == combination@[i as int]);
            lemma_total_distance_grows(combination@, i + 1);
        }
        match combination[i] {
            QueryWord::Full { id, edit_distance } => {
                if id as usize >= words {
                    assert(!word_fits(words as int, from + i < typed, combination@[i as int]));
                    return None;
                }
                match sum.checked_add(edit_distance) {
                    Some(s) => {
                        sum = s;
                    },
                    None => {
                        return None;
                    },
                }
            },
            QueryWord::Prefix { id_range } => {
                if typed <= i || typed - i <= from {
                    assert(!word_fits(words as int, from + i < typed, combination@[i as int]));
                    return None;
                }
            },
        }
        i = i + 1;
    }
    assert(combination@.take(i as int) == combination@);
    Some(sum)
}

/// Writes a combination out.
pub fn write_out<T: Word>(
    words: &Vec<String>,
    typed: &[T],
    from: usize,
    combination: &Vec<QueryWord>,
) -> (r: Vec<String>)
    requires
        fits(words@.len() as int, typed@.len() as int, from as int, combination@),
    ensures
        text::texts(r@) == written_out(
            text::texts(words@),
            text::texts(typed@),
            from as int,
            combination@,
        ),
{
    let mut out: Vec<String> = Vec::new();
    let mut i: usize = 0;
    let count: usize = typed.len();
    while i < combination.len()
        invariant
            i <= combination@.len(),
            count == typed@.len(),
            fits(words@.len() as int, typed@.len() as int, from as int, combination@),
            out@.len() == i,
            forall|j: int|
                0 <= j < i ==> (#[trigger] out@[j]).text() == written_out(
                    text::texts(words@),
                    text::texts(typed@),
                    from as int,
                    combination@,
                )[j],
        decreases combination@.len() - i,
    {
        assert(word_fits(words@.len() as int, from + i < typed@.len(), combination@[i as int]));
        let word: String = match combination[i] {
            QueryWord::Full { id, edit_distance } => words[id as usize].clone(),
            QueryWord::Prefix { id_range } => typed[from + i].as_text().to_owned(),
        };
        out.push(word);
        i = i + 1;
    }
    assert(text::texts(out@) == written_out(
        text::texts(words@),
        text::texts(typed@),
        from as int,
        combination@,
    ));
    out
}

} // verus!
