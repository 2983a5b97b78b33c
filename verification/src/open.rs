//! Putting a phrase set together from what was read of it.
use vstd::prelude::*;
use vstd::utf8;
use crate::index::{FuzzyMap, PhraseSet, PrefixSet};
use crate::metadata;
use crate::metadata::{FuzzyPhraseSetMetadata, Metadata};
use crate::query::{FuzzyMapLookupResult, QueryWord};
use crate::script::{ScriptError, ScriptPattern, ScriptTable};
use crate::search::FuzzyPhraseSet;
use crate::text;

verus! {

/// What there is at the place where a set is to be read: whether there is anything, whether that
/// is a directory, and whether that holds the index of words and the index of phrases.
#[derive(Debug, PartialEq, Eq, Structural, Clone, Copy)]
pub struct Listing {
    pub is_there: bool,
    pub is_dir: bool,
    pub has_prefix_set: bool,
    pub has_phrase_set: bool,
}

/// Why a phrase set could not be opened.
#[derive(Debug, PartialEq, Eq, Clone, Copy)]
pub enum OpenError<E> {
    /// There is no directory.
    NotADirectory,
    /// The indexes are of another kind or version.
    UnexpectedMetadata,
    /// There is no pattern for the scripts in which words can be found by an approximate spelling.
    Script(ScriptError),
    /// The index of words is missing.
    NoPrefixSet,
    /// A word is not UTF-8. The first such word is the one with this id.
    NotText(usize),
    /// The index of phrases is missing.
    NoPhraseSet,
    /// Something could not be read.
    Read(E),
}

/// `String::from_utf8`. It succeeds just where the bytes are UTF-8, and then gives the text that
/// they encode.
#[verifier::external_body]
fn string_from_utf8(bytes: Vec<u8>) -> (r: Option<String>)
    ensures
        r is Some <==> utf8::valid_utf8(bytes@),
        r matches Some(s) ==> s@ == utf8::decode_utf8(bytes@),
{
    String::from_utf8(bytes).ok()
}

/// Lists of bytes, as sequences.
pub open spec fn bytes_of(words: Seq<Vec<u8>>) -> Seq<Seq<u8>> {
    words.map_values(|w: Vec<u8>| w@)
}

/// All the words are UTF-8.
pub open spec fn all_text(words: Seq<Seq<u8>>) -> bool {
    forall|i: int| 0 <= i < words.len() ==> utf8::valid_utf8(#[trigger] words[i])
}

/// The first word that is not UTF-8 is at position `i`.
pub open spec fn is_first_not_text(words: Seq<Seq<u8>>, i: int) -> bool {
    &&& 0 <= i < words.len()
    &&& !utf8::valid_utf8(words[i])
    &&& forall|j: int| 0 <= j < i ==> utf8::valid_utf8(#[trigger] words[j])
}

/// The position of the first word that is not UTF-8.
pub open spec fn first_not_text(words: Seq<Seq<u8>>) -> int {
    choose|i: int| is_first_not_text(words, i)
}

/// The texts that some words encode.
pub open spec fn texts_of(words: Seq<Seq<u8>>) -> Seq<Seq<char>> {
    words.map_values(|w: Seq<u8>| utf8::decode_utf8(w))
}

/// Decodes the words of an index, or gives the position of the first that is not UTF-8.
pub fn decode_words(words: Vec<Vec<u8>>) -> (r: Result<Vec<String>, usize>)
    ensures
        match r {
            Ok(v) => all_text(bytes_of(words@)) && text::texts(v@) == texts_of(bytes_of(words@)),
            Err(i) => !all_text(bytes_of(words@)) && i == first_not_text(bytes_of(words@)),
        },
{
    let ghost all = bytes_of(words@);
    let ghost back = words@.reverse();
    let mut rest = crate::order::reversed(words);
    let mut word_list: Vec<String> = Vec::with_capacity(rest.len());
    while rest.len() > 0
        invariant
            all == bytes_of(words@),
            back == words@.reverse(),
            rest@.len() + word_list@.len() == all.len(),
            back.len() == all.len(),
            rest@ == back.take(rest@.len() as int),
            forall|i: int| 0 <= i < word_list@.len() ==> utf8::valid_utf8(#[trigger] all[i]),
            text::texts(word_list@) == texts_of(all).take(word_list@.len() as int),
        decreases rest@.len(),
    {
        let ghost n = word_list@.len() as int;
        let ghost before = word_list@;
        let bytes: Vec<u8> = rest.pop().unwrap();
        assert(words@[n] == bytes);
        assert(all[n] == bytes@);
        match string_from_utf8(bytes) {
            Some(word) => {
                let ghost added = word@;
                word_list.push(word);
                assert(text::texts(word_list@) =~= text::texts(before).push(added));
                assert(texts_of(all).take(n + 1) =~= texts_of(all).take(n).push(texts_of(all)[n]));
            },
            None => {
                assert(is_first_not_text(all, n));
                assert(is_first_not_text(all, first_not_text(all)));
                return Err(word_list.len());
            },
        }
    }
    assert(texts_of(all).take(word_list@.len() as int) =~= texts_of(all));
    Ok(word_list)
}

/// What makes an end to it before the scripts are looked up: that there is no directory, that the
/// metadata could not be read, or that they are not those of this library.
pub open spec fn first_error<E>(listing: Listing, described: Result<Metadata, E>) -> Option<
    OpenError<E>,
> {
    if !listing.is_there || !listing.is_dir {
        Some(OpenError::NotADirectory)
    } else {
        match described {
            Err(e) => Some(OpenError::Read(e)),
            Ok(m) => if m != metadata::current() {
                Some(OpenError::UnexpectedMetadata)
            } else {
                None
            },
        }
    }
}

/// What makes an end to it after that: an index that is missing or could not be read, or words
/// that are not text.
pub open spec fn last_error<E>(
    listing: Listing,
    words: Result<Seq<Seq<u8>>, E>,
    phrase_set: Result<(), E>,
    fuzzy_map: Result<(), E>,
) -> Option<OpenError<E>> {
    if !listing.has_prefix_set {
        Some(OpenError::NoPrefixSet)
    } else if words is Err {
        Some(OpenError::Read(words->Err_0))
    } else if !all_text(words->Ok_0) {
        Some(OpenError::NotText(first_not_text(words->Ok_0) as usize))
    } else if !listing.has_phrase_set {
        Some(OpenError::NoPhraseSet)
    } else if phrase_set is Err {
        Some(OpenError::Read(phrase_set->Err_0))
    } else if fuzzy_map is Err {
        Some(OpenError::Read(fuzzy_map->Err_0))
    } else {
        None
    }
}

/// Metadata that were read, as a mathematical value.
pub open spec fn described_by<E>(read: Result<FuzzyPhraseSetMetadata, E>) -> Result<Metadata, E> {
    match read {
        Ok(m) => Ok(m@),
        Err(e) => Err(e),
    }
}

/// Makes sure that there is a directory, and that it holds the metadata of this library.
pub fn expect_current<E>(listing: Listing, described: Result<FuzzyPhraseSetMetadata, E>) -> (r: Result<
    FuzzyPhraseSetMetadata,
    OpenError<E>,
>)
    ensures
        match first_error(listing, described_by(described)) {
            Some(e) => r == Err::<FuzzyPhraseSetMetadata, OpenError<E>>(e),
            None => r == Ok::<FuzzyPhraseSetMetadata, OpenError<E>>(described->Ok_0)
                && described->Ok_0@ == metadata::current(),
        },
{
    if !listing.is_there || !listing.is_dir {
        return Err(OpenError::NotADirectory);
    }
    match described {
        Ok(described) => if described.same(&FuzzyPhraseSetMetadata::default()) {
            Ok(described)
        } else {
            Err(OpenError::UnexpectedMetadata)
        },
        Err(e) => Err(OpenError::Read(e)),
    }
}

/// The words of an index that was read.
pub open spec fn words_read<A, E>(read: Result<(A, Vec<Vec<u8>>), E>) -> Result<Seq<Seq<u8>>, E> {
    match read {
        Ok((_, words)) => Ok(bytes_of(words@)),
        Err(e) => Err(e),
    }
}

/// Whether something was read.
pub open spec fn whether_read<A, E>(read: Result<A, E>) -> Result<(), E> {
    match read {
        Ok(_) => Ok(()),
        Err(e) => Err(e),
    }
}

/// The words of an index, as they are written.
pub open spec fn encoded(words: Seq<Seq<char>>) -> Seq<Seq<u8>> {
    words.map_values(|w: Seq<char>| utf8::encode_utf8(w))
}

/// What was built can be opened, with the same words: where the words were written as they are and
/// the metadata as they have to be, and all can be read, there is no error.
pub proof fn what_was_built_can_be_opened<E>(listing: Listing, words: Seq<Seq<char>>)
    requires
        listing.is_there,
        listing.is_dir,
        listing.has_prefix_set,
        listing.has_phrase_set,
    ensures
        first_error::<E>(listing, Ok(metadata::current())) is None,
        last_error::<E>(listing, Ok(encoded(words)), Ok(()), Ok(())) is None,
        texts_of(encoded(words)) == words,
{
    let bytes = encoded(words);
    assert forall|i: int| 0 <= i < bytes.len() implies utf8::valid_utf8(#[trigger] bytes[i]) by {
        utf8::encode_utf8_valid_utf8(words[i]);
    }
    assert forall|i: int| 0 <= i < words.len() implies #[trigger] texts_of(bytes)[i] == words[i] by {
        utf8::encode_utf8_decode_utf8(words[i]);
    }
    assert(texts_of(bytes) =~= words);
}

impl<G, R, L, C, P, M, N, W, E> FuzzyPhraseSet<G, R, L, C, P, M, N, W> where
    G: Fn(&str) -> Option<u64>,
    R: Fn(&str) -> Option<(u64, u64)>,
    L: Fn(&str, u8, &Vec<String>) -> Result<Vec<FuzzyMapLookupResult>, E>,
    C: Fn(&Vec<QueryWord>) -> Result<bool, E>,
    P: Fn(&Vec<QueryWord>) -> Result<bool, E>,
    M: Fn(&Vec<Vec<QueryWord>>, u8) -> Result<Vec<Vec<QueryWord>>, E>,
    N: Fn(&Vec<Vec<QueryWord>>, u8) -> Result<Vec<Vec<QueryWord>>, E>,
    W: Fn(&[Vec<QueryWord>], u8, bool) -> Result<Vec<(Vec<QueryWord>, bool)>, E>,
 {
    /// Puts a phrase set together from its pattern for scripts and what was read of its indexes.
    pub fn assemble(
        listing: Listing,
        script_regex: Result<ScriptPattern, ScriptError>,
        prefix_set: Result<(PrefixSet<G, R>, Vec<Vec<u8>>), E>,
        phrase_set: Result<PhraseSet<C, P, M, N, W>, E>,
        fuzzy_map: Result<FuzzyMap<L>, E>,
    ) -> (r: Result<Self, OpenError<E>>)
        ensures
            match script_regex {
                Err(s) => r == Err::<Self, OpenError<E>>(OpenError::Script(s)),
                Ok(pattern) => match last_error(
                    listing,
                    words_read(prefix_set),
                    whether_read(phrase_set),
                    whether_read(fuzzy_map),
                ) {
                    Some(e) => r == Err::<Self, OpenError<E>>(e),
                    None => {
                        &&& r matches Ok(opened)
                        &&& opened.prefix_set == prefix_set->Ok_0.0
                        &&& opened.phrase_set == phrase_set->Ok_0
                        &&& opened.fuzzy_map == fuzzy_map->Ok_0
                        &&& opened.words() == texts_of(bytes_of(prefix_set->Ok_0.1@))
                        &&& opened.script_regex == pattern
                    },
                },
            },
    {
        let script_regex = match script_regex {
            Ok(pattern) => pattern,
            Err(e) => {
                return Err(OpenError::Script(e));
            },
        };
        if !listing.has_prefix_set {
            return Err(OpenError::NoPrefixSet);
        }
        let (prefix_set, words) = match prefix_set {
            Ok(read) => read,
            Err(e) => {
                return Err(OpenError::Read(e));
            },
        };
        let word_list = match decode_words(words) {
            Ok(word_list) => word_list,
            Err(id) => {
                return Err(OpenError::NotText(id));
            },
        };
        if !listing.has_phrase_set {
            return Err(OpenError::NoPhraseSet);
        }
        let phrase_set = match phrase_set {
            Ok(phrase_set) => phrase_set,
            Err(e) => {
                return Err(OpenError::Read(e));
            },
        };
        let fuzzy_map = match fuzzy_map {
            Ok(fuzzy_map) => fuzzy_map,
            Err(e) => {
                return Err(OpenError::Read(e));
            },
        };
        Ok(FuzzyPhraseSet { prefix_set, phrase_set, fuzzy_map, word_list, script_regex })
    }

    /// Puts a phrase set together from what was read of its directory. The index of words comes
    /// with all its words, in the order of their ids.
    pub fn from_path<S, Q, B>(
        listing: Listing,
        described: Result<FuzzyPhraseSetMetadata, E>,
        scripts: &ScriptTable<Q, B>,
        prefix_set: Result<(PrefixSet<G, R>, Vec<Vec<u8>>), E>,
        phrase_set: Result<PhraseSet<C, P, M, N, W>, E>,
        fuzzy_map: Result<FuzzyMap<L>, E>,
    ) -> (r: Result<Self, OpenError<E>>) where
        Q: Fn(&str) -> Option<S>,
        B: Fn(&Vec<S>) -> String,

        requires
            scripts.callable(),
        ensures
            match first_error(listing, described_by(described)) {
                Some(e) => r == Err::<Self, OpenError<E>>(e),
                None => {
                    ||| exists|s: ScriptError| #[trigger]
                        scripts.may_compile(metadata::current().fuzzy_enabled_scripts, Err(s)) && r
                            == Err::<Self, OpenError<E>>(OpenError::Script(s))
                    ||| exists|pattern: ScriptPattern| #[trigger]
                        scripts.may_compile(metadata::current().fuzzy_enabled_scripts, Ok(pattern))
                            && match last_error(
                            listing,
                            words_read(prefix_set),
                            whether_read(phrase_set),
                            whether_read(fuzzy_map),
                        ) {
                            Some(e) => r == Err::<Self, OpenError<E>>(e),
                            None => {
                                &&& r matches Ok(opened)
                                &&& opened.prefix_set == prefix_set->Ok_0.0
                                &&& opened.phrase_set == phrase_set->Ok_0
                                &&& opened.fuzzy_map == fuzzy_map->Ok_0
                                &&& opened.words() == texts_of(bytes_of(prefix_set->Ok_0.1@))
                                &&& opened.script_regex == pattern
                            },
                        }
                },
            },
    {
        let described = match expect_current(listing, described) {
            Ok(described) => described,
            Err(e) => {
                return Err(e);
            },
        };
        let ghost names = metadata::current().fuzzy_enabled_scripts;
        assert(described@.fuzzy_enabled_scripts == names);
        let script_regex = scripts.compile(&described.fuzzy_enabled_scripts);
        assert(scripts.may_compile(names, script_regex));
        FuzzyPhraseSet::assemble(listing, script_regex, prefix_set, phrase_set, fuzzy_map)
    }
}

} // verus!
