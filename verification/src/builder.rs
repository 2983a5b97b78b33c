//! Collecting phrases, and working out what the indexes of a phrase set have to hold.
use vstd::prelude::*;
use crate::metadata;
use crate::metadata::FuzzyPhraseSetMetadata;
use crate::order;
use crate::script::{ScriptError, ScriptPattern, ScriptTable};
use crate::text;
use crate::text::{Standing, Word};

verus! {

/// Collects phrases. A word gets a temporary id when it is first seen, and phrases are kept as
/// temporary ids. Only when all words are known do they get their final ids, in alphabetical
/// order.
#[derive(Debug)]
pub struct FuzzyPhraseSetBuilder {
    phrases: Vec<Vec<u32>>,
    // by temporary id
    words: Vec<String>,
    // temporary ids, in the order of their words
    tmpids: Vec<u32>,
}

/// Why a phrase set could not be built.
#[derive(Debug, PartialEq, Eq, Structural, Clone, Copy)]
pub enum BuildError {
    /// The place where the set is to be written is taken, and not by a directory.
    NotADirectory,
    /// There are more words than ids.
    TooManyWords,
    /// There is no pattern for the scripts in which words can be found by an approximate spelling.
    Script(ScriptError),
}

/// What is to be done about the directory of a set before it is built.
#[derive(Debug, PartialEq, Eq, Structural, Clone, Copy)]
pub enum DirectoryAction {
    Keep,
    Create,
}

/// What the indexes of a phrase set have to hold: the words, a word's position being its id; the
/// ids of the words that can be found by an approximate spelling; the phrases, as word ids; and
/// what is written down beside them.
#[derive(Debug)]
pub struct IndexPlan {
    pub words: Vec<String>,
    pub fuzzy_ids: Vec<u32>,
    pub phrases: Vec<Vec<u32>>,
    pub metadata: FuzzyPhraseSetMetadata,
}

/// The number of ids, and so the greatest number of words.
pub const ID_COUNT: u64 = 0x1_0000_0000;

/// The words that some ids stand for.
pub open spec fn decoded(words: Seq<Seq<char>>, ids: Seq<u32>) -> Seq<Seq<char>> {
    ids.map_values(|id: u32| words[id as int])
}

/// The phrases that some lists of ids stand for.
pub open spec fn decoded_all(words: Seq<Seq<char>>, phrases: Seq<Seq<u32>>) -> Seq<Seq<Seq<char>>> {
    phrases.map_values(|ids: Seq<u32>| decoded(words, ids))
}

/// Lists of ids, as sequences.
pub open spec fn ids_of(phrases: Seq<Vec<u32>>) -> Seq<Seq<u32>> {
    phrases.map_values(|p: Vec<u32>| p@)
}

/// All ids are below `n`.
pub open spec fn in_range(n: int, phrases: Seq<Seq<u32>>) -> bool {
    forall|i: int, j: int|
        0 <= i < phrases.len() && 0 <= j < phrases[i].len() ==> #[trigger] phrases[i][j] < n
}

/// A word occurs in some phrase.
pub open spec fn occurs(phrases: Seq<Seq<Seq<char>>>, word: Seq<char>) -> bool {
    exists|i: int| 0 <= i < phrases.len() && (#[trigger] phrases[i]).contains(word)
}

/// The words that occur in some phrases.
pub open spec fn vocabulary(phrases: Seq<Seq<Seq<char>>>) -> Set<Seq<char>> {
    Set::new(|word: Seq<char>| occurs(phrases, word))
}

/// One more phrase makes for no more new words than it has.
pub proof fn vocabulary_grows_by_a_phrase(phrases: Seq<Seq<Seq<char>>>, phrase: Seq<Seq<char>>)
    ensures
        vocabulary(phrases.push(phrase)) == vocabulary(phrases) + phrase.to_set(),
        vocabulary(phrases).finite(),
        vocabulary(phrases.push(phrase)).len() <= vocabulary(phrases).len() + phrase.len(),
        phrases.len() == 0 ==> vocabulary(phrases).len() == 0,
    decreases phrases.len(),
{
    let more = phrases.push(phrase);
    assert forall|w: Seq<char>| #[trigger] vocabulary(more).contains(w) <==> (vocabulary(phrases)
        + phrase.to_set()).contains(w) by {
        if occurs(phrases, w) {
            let k = choose|k: int| 0 <= k < phrases.len() && (#[trigger] phrases[k]).contains(w);
            assert(more[k] == phrases[k]);
        }
        assert(more[phrases.len() as int] == phrase);
        if occurs(more, w) {
            let k = choose|k: int| 0 <= k < more.len() && (#[trigger] more[k]).contains(w);
            if k < phrases.len() {
                assert(more[k] == phrases[k]);
            }
        }
    }
    assert(vocabulary(more) =~= vocabulary(phrases) + phrase.to_set());
    if phrases.len() == 0 {
        assert(vocabulary(phrases) =~= Set::empty());
    } else {
        vocabulary_grows_by_a_phrase(phrases.drop_last(), phrases.last());
        phrases.last().lemma_cardinality_of_set();
        assert(phrases.drop_last().push(phrases.last()) =~= phrases);
    }
    phrase.lemma_cardinality_of_set();
    vstd::set_lib::lemma_len_union(vocabulary(phrases), phrase.to_set());
}

/// The ids of the words that a pattern accepts, in ascending order.
pub open spec fn accepted_ids(pattern: &ScriptPattern, words: Seq<Seq<char>>) -> Seq<u32>
    decreases words.len(),
{
    if words.len() == 0 {
        Seq::empty()
    } else {
        let before = accepted_ids(pattern, words.drop_last());
        if pattern.accepts(words.last()) {
            before.push((words.len() - 1) as u32)
        } else {
            before
        }
    }
}

/// `words` and `phrases` lay out the `inserted` phrases: the words are those that occur, each
/// once, in alphabetical order; the phrases are those that were inserted, each as often as it was,
/// in the order of their ids.
pub open spec fn lays_out(
    inserted: Seq<Seq<Seq<char>>>,
    words: Seq<Seq<char>>,
    phrases: Seq<Seq<u32>>,
) -> bool {
    &&& words.len() <= ID_COUNT
    &&& order::strictly_sorted(order::text_order(), words)
    &&& forall|word: Seq<char>| #[trigger] words.contains(word) <==> occurs(inserted, word)
    &&& in_range(words.len() as int, phrases)
    &&& order::sorted(order::ids_order(), phrases)
    &&& decoded_all(words, phrases).to_multiset() == inserted.to_multiset()
}

/// The words that have temporary ids, after some more were seen: behind those that are known come
/// those that are not, in the order in which they are first seen.
pub open spec fn interned_with(known: Seq<Seq<char>>, words: Seq<Seq<char>>) -> Seq<Seq<char>>
    decreases words.len(),
{
    if words.len() == 0 {
        known
    } else {
        let before = interned_with(known, words.drop_last());
        if before.contains(words.last()) {
            before
        } else {
            before.push(words.last())
        }
    }
}

/// The temporary ids of some words.
pub open spec fn tmpids_of(interned: Seq<Seq<char>>, words: Seq<Seq<char>>) -> Seq<u32> {
    words.map_values(|word: Seq<char>| interned.index_of(word) as u32)
}

/// Words by temporary id, and the temporary ids in the order of their words.
spec fn is_interned(words: Seq<Seq<char>>, tmpids: Seq<u32>) -> bool {
    &&& words.len() <= ID_COUNT
    &&& words.no_duplicates()
    &&& tmpids.len() == words.len()
    &&& forall|k: int| 0 <= k < tmpids.len() ==> #[trigger] tmpids[k] < words.len()
    &&& forall|id: u32| id < words.len() ==> #[trigger] tmpids.contains(id)
    &&& order::strictly_sorted(order::text_order(), decoded(words, tmpids))
}

impl View for FuzzyPhraseSetBuilder {
    type V = Seq<Seq<Seq<char>>>;

    /// The phrases that were inserted, in the order of insertion.
    closed spec fn view(&self) -> Seq<Seq<Seq<char>>> {
        decoded_all(text::texts(self.words@), ids_of(self.phrases@))
    }
}

impl Default for FuzzyPhraseSetBuilder {
    fn default() -> (builder: FuzzyPhraseSetBuilder)
        ensures
            builder.wf(),
            builder@ == Seq::<Seq<Seq<char>>>::empty(),
            builder.interned() == Seq::<Seq<char>>::empty(),
            builder.tmpid_phrases() == Seq::<Seq<u32>>::empty(),
    {
        let builder = FuzzyPhraseSetBuilder {
            phrases: Vec::new(),
            words: Vec::new(),
            tmpids: Vec::new(),
        };
        assert(text::texts(builder.words@) =~= Seq::<Seq<char>>::empty());
        assert(ids_of(builder.phrases@) =~= Seq::<Seq<u32>>::empty());
        assert(is_interned(text::texts(builder.words@), builder.tmpids@));
        assert(builder.wf());
        assert(builder@ =~= Seq::<Seq<Seq<char>>>::empty());
        builder
    }
}

/// Decoding by more words gives the same phrases, where the ids are below the number of words.
proof fn lemma_decoded_all_extends(
    words: Seq<Seq<char>>,
    more: Seq<Seq<char>>,
    phrases: Seq<Seq<u32>>,
)
    requires
        words.len() <= more.len(),
        more.take(words.len() as int) == words,
        in_range(words.len() as int, phrases),
    ensures
        decoded_all(words, phrases) == decoded_all(more, phrases),
{
    assert forall|i: int| 0 <= i < phrases.len() implies #[trigger] decoded_all(words, phrases)[i]
        == decoded_all(more, phrases)[i] by {
        assert forall|j: int| 0 <= j < phrases[i].len() implies #[trigger] decoded(
            words,
            phrases[i],
        )[j] == decoded(more, phrases[i])[j] by {
            let id = phrases[i][j];
            assert(more.take(words.len() as int)[id as int] == more[id as int]);
        }
        assert(decoded(words, phrases[i]) =~= decoded(more, phrases[i]));
    }
    assert(decoded_all(words, phrases) =~= decoded_all(more, phrases));
}

impl FuzzyPhraseSetBuilder {
    /// The words that are known are those that occur in the phrases.
    pub closed spec fn wf(&self) -> bool {
        let words = text::texts(self.words@);
        &&& is_interned(words, self.tmpids@)
        &&& in_range(words.len() as int, ids_of(self.phrases@))
        &&& forall|id: int| 0 <= id < words.len() ==> occurs(self@, #[trigger] words[id])
    }

    /// The words that have temporary ids, by id.
    pub closed spec fn interned(&self) -> Seq<Seq<char>> {
        text::texts(self.words@)
    }

    /// The phrases as temporary ids.
    pub closed spec fn tmpid_phrases(&self) -> Seq<Seq<u32>> {
        ids_of(self.phrases@)
    }

    /// Temporary ids are handed out to the words that occur, one to each, from zero on in a row.
    /// Every id in a phrase is one of them, and stands for the word that was inserted there.
    pub proof fn temporary_ids_are_in_a_row(&self)
        requires
            self.wf(),
        ensures
            self.interned().no_duplicates(),
            forall|word: Seq<char>| #[trigger]
                self.interned().contains(word) <==> occurs(self@, word),
            in_range(self.interned().len() as int, self.tmpid_phrases()),
            decoded_all(self.interned(), self.tmpid_phrases()) == self@,
            self.interned().len() <= ID_COUNT,
    {
        assert forall|word: Seq<char>| #[trigger] self.interned().contains(word) <==> occurs(self@, word) by {
            self.lemma_occurs(word);
        }
    }

    /// Starts to collect phrases. `is_there` and `is_dir` tell whether there is something at the
    /// place where the set is to be written, and whether that is a directory.
    pub fn new(is_there: bool, is_dir: bool) -> (r: Result<
        (FuzzyPhraseSetBuilder, DirectoryAction),
        BuildError,
    >)
        ensures
            match r {
                Ok((builder, action)) => {
                    &&& !is_there || is_dir
                    &&& action == (if is_there {
                        DirectoryAction::Keep
                    } else {
                        DirectoryAction::Create
                    })
                    &&& builder.wf()
                    &&& builder@ == Seq::<Seq<Seq<char>>>::empty()
                    &&& builder.interned() == Seq::<Seq<char>>::empty()
                    &&& builder.tmpid_phrases() == Seq::<Seq<u32>>::empty()
                },
                Err(e) => is_there && !is_dir && e == BuildError::NotADirectory,
            },
    {
        let action = if is_there {
            if !is_dir {
                return Err(BuildError::NotADirectory);
            }
            DirectoryAction::Keep
        } else {
            DirectoryAction::Create
        };
        Ok((FuzzyPhraseSetBuilder::default(), action))
    }

    /// The words that occur are those that are known.
    proof fn lemma_occurs(&self, w: Seq<char>)
        requires
            self.wf(),
        ensures
            occurs(self@, w) <==> text::texts(self.words@).contains(w),
    {
        let words = text::texts(self.words@);
        if words.contains(w) {
            let id = choose|id: int| 0 <= id < words.len() && words[id] == w;
            assert(occurs(self@, words[id]));
        }
        if occurs(self@, w) {
            let i = choose|i: int| 0 <= i < self@.len() && (#[trigger] self@[i]).contains(w);
            let phrase = ids_of(self.phrases@)[i];
            let j = choose|j: int| 0 <= j < self@[i].len() && self@[i][j] == w;
            assert(phrase[j] < words.len());
            assert(words[phrase[j] as int] == w);
        }
    }

    /// Finds the place of a word in the order of words.
    fn rank_of(&self, word: &str) -> (r: (usize, bool))
        requires
            is_interned(text::texts(self.words@), self.tmpids@),
        ensures
            ({
                let ranked = decoded(text::texts(self.words@), self.tmpids@);
                &&& r.0 <= ranked.len()
                &&& forall|k: int| 0 <= k < r.0 ==> order::text_order()(#[trigger] ranked[k], word@)
                &&& r.1 ==> r.0 < ranked.len() && ranked[r.0 as int] == word@
                &&& !r.1 ==> forall|k: int|
                    r.0 <= k < ranked.len() ==> order::text_order()(word@, #[trigger] ranked[k])
            }),
            r.1 <==> text::texts(self.words@).contains(word@),
    {
        let ghost ranked = decoded(text::texts(self.words@), self.tmpids@);
        let mut low: usize = 0;
        let mut high: usize = self.tmpids.len();
        proof {
            order::text_order_is_strict();
        }
        while low < high
            invariant
                order::is_strict_order(order::text_order()),
                is_interned(text::texts(self.words@), self.tmpids@),
                ranked == decoded(text::texts(self.words@), self.tmpids@),
                low <= high <= ranked.len(),
                forall|k: int| 0 <= k < low ==> order::text_order()(#[trigger] ranked[k], word@),
                forall|k: int|
                    high <= k < ranked.len() ==> order::text_order()(word@, #[trigger] ranked[k]),
            decreases high - low,
        {
            let mid: usize = low + (high - low) / 2;
            let id: u32 = self.tmpids[mid];
            assert(ranked[mid as int] == self.words@[id as int]@);
            match text::stand(self.words[id as usize].as_str(), word) {
                Standing::Same => {
                    assert(text::texts(self.words@)[id as int] == word@);
                    return (mid, true);
                },
                Standing::Before => {
                    low = mid + 1;
                },
                Standing::After => {
                    high = mid;
                },
            }
        }
        proof {
            let words = text::texts(self.words@);
            if words.contains(word@) {
                let id = choose|id: int| 0 <= id < words.len() && words[id] == word@;
                assert(self.tmpids@.contains(id as u32));
                let k = choose|k: int| 0 <= k < self.tmpids@.len() && self.tmpids@[k] == id as u32;
                assert(ranked[k] == word@);
                if k < low {
                    assert(order::text_order()(ranked[k], word@));
                } else {
                    assert(order::text_order()(word@, ranked[k]));
                }
            }
        }
        (low, false)
    }

    /// The temporary id of a word, which gets one if it has none yet.
    fn intern(&mut self, word: &str) -> (id: u32)
        requires
            is_interned(text::texts(old(self).words@), old(self).tmpids@),
            old(self).words@.len() < ID_COUNT || text::texts(old(self).words@).contains(word@),
        ensures
            is_interned(text::texts(final(self).words@), final(self).tmpids@),
            final(self).phrases == old(self).phrases,
            id < final(self).words@.len(),
            text::texts(final(self).words@)[id as int] == word@,
            if text::texts(old(self).words@).contains(word@) {
                final(self).words@ == old(self).words@
            } else {
                &&& id == old(self).words@.len()
                &&& text::texts(final(self).words@) == text::texts(old(self).words@).push(word@)
            },
    {
        let (rank, known) = self.rank_of(word);
        let ghost words = text::texts(self.words@);
        let ghost tmpids = self.tmpids@;
        let ghost ranked = decoded(words, tmpids);
        if known {
            return self.tmpids[rank];
        }
        let id: u32 = self.words.len() as u32;
        let copy: String = word.to_owned();
        self.words.push(copy);
        self.tmpids.insert(rank, id);
        proof {
            order::text_order_is_strict();
            let more = text::texts(self.words@);
            assert(more =~= words.push(word@));
            let now = decoded(more, self.tmpids@);
            assert(now =~= ranked.insert(rank as int, word@));
            assert(order::strictly_sorted(order::text_order(), now));
            assert(more.no_duplicates()) by {
                assert(forall|i: int| 0 <= i < words.len() ==> words.contains(#[trigger] words[i]));
            }
            assert forall|i: u32| i < more.len() implies #[trigger] self.tmpids@.contains(i) by {
                if i == id {
                    assert(self.tmpids@[rank as int] == id);
                } else {
                    assert(tmpids.contains(i));
                    let k = choose|k: int| 0 <= k < tmpids.len() && tmpids[k] == i;
                    if k < rank {
                        assert(self.tmpids@[k] == i);
                    } else {
                        assert(self.tmpids@[k + 1] == i);
                    }
                }
            }
        }
        id
    }

    /// The words that occur once a phrase is added.
    proof fn lemma_vocabulary_with(&self, phrase: Seq<Seq<char>>)
        requires
            self.wf(),
        ensures
            vocabulary(self@.push(phrase)) == text::texts(self.words@).to_set() + phrase.to_set(),
            vocabulary(self@.push(phrase)).finite(),
    {
        let known = text::texts(self.words@).to_set();
        vocabulary_grows_by_a_phrase(self@, phrase);
        assert forall|w: Seq<char>| known.contains(w) <==> #[trigger] vocabulary(self@).contains(w) by {
            self.lemma_occurs(w);
        }
        assert(known =~= vocabulary(self@));
        phrase.lemma_cardinality_of_set();
    }

    /// Whether there are ids for all the words, once a phrase is added.
    fn has_room<T: Word>(&self, phrase: &[T]) -> (r: bool)
        requires
            self.wf(),
        ensures
            r == (vocabulary(self@.push(text::texts(phrase@))).len() <= ID_COUNT),
    {
        let ghost all = text::texts(phrase@);
        let ghost known = text::texts(self.words@);
        let ghost whole = vocabulary(self@.push(all));
        proof {
            self.lemma_vocabulary_with(all);
            known.unique_seq_to_set();
            all.lemma_cardinality_of_set();
            vstd::set_lib::lemma_len_union(known.to_set(), all.to_set());
        }
        if phrase.len() as u64 <= ID_COUNT - self.words.len() as u64 {
            return true;
        }
        // the words that are not known yet
        let mut fresh = FuzzyPhraseSetBuilder::default();
        let mut i: usize = 0;
        assert(fresh.words@.len() == 0) by {
            if fresh.words@.len() > 0 {
                assert(occurs(fresh@, text::texts(fresh.words@)[0]));
            }
        }
        while i < phrase.len()
            invariant
                self.wf(),
                all == text::texts(phrase@),
                known == text::texts(self.words@),
                whole == vocabulary(self@.push(all)),
                whole == known.to_set() + all.to_set(),
                whole.finite(),
                i <= phrase@.len(),
                is_interned(text::texts(fresh.words@), fresh.tmpids@),
                self.words@.len() + fresh.words@.len() <= ID_COUNT,
                forall|w: Seq<char>| #[trigger]
                    text::texts(fresh.words@).contains(w) <==> all.take(i as int).contains(w)
                        && !known.contains(w),
            decreases phrase@.len() - i,
        {
            let word = phrase[i].as_text();
            let ghost found = text::texts(fresh.words@);
            assert(word@ == all[i as int]);
            assert(all.take(i + 1) =~= all.take(i as int).push(word@));
            let is_known = self.rank_of(word).1;
            let is_found = fresh.rank_of(word).1;
            if !is_known && !is_found {
                if self.words.len() as u64 + fresh.words.len() as u64 >= ID_COUNT {
                    proof {
                        let more = found.push(word@);
                        assert(more.no_duplicates()) by {
                            assert(forall|k: int|
                                0 <= k < found.len() ==> found.contains(#[trigger] found[k]));
                        }
                        assert forall|w: Seq<char>| #[trigger] more.contains(w) implies all.contains(w)
                            && !known.contains(w) by {
                            let k = choose|k: int| 0 <= k < more.len() && more[k] == w;
                            if k < found.len() {
                                assert(found[k] == w);
                                assert(found.contains(w));
                                let part = all.take(i as int);
                                let j = choose|j: int| 0 <= j < part.len() && part[j] == w;
                                assert(all[j] == w);
                            } else {
                                assert(all[i as int] == w);
                            }
                        }
                        known.unique_seq_to_set();
                        more.unique_seq_to_set();
                        known.lemma_cardinality_of_set();
                        more.lemma_cardinality_of_set();
                        assert(known.to_set().disjoint(more.to_set()));
                        vstd::set_lib::lemma_set_disjoint_lens(known.to_set(), more.to_set());
                        assert((known.to_set() + more.to_set()).subset_of(whole));
                        vstd::set_lib::lemma_len_subset(known.to_set() + more.to_set(), whole);
                    }
                    return false;
                }
                fresh.intern(word);
                assert(text::texts(fresh.words@)[found.len() as int] == word@);
            }
            proof {
                let now = text::texts(fresh.words@);
                assert forall|w: Seq<char>| #[trigger] now.contains(w) <==> all.take(i + 1).contains(w)
                    && !known.contains(w) by {
                    assert(found.contains(w) <==> all.take(i as int).contains(w) && !known.contains(w));
                    let part = all.take(i as int);
                    let more = all.take(i + 1);
                    if part.contains(w) {
                        let j = choose|j: int| 0 <= j < part.len() && part[j] == w;
                        assert(more[j] == w);
                    }
                    assert(more[i as int] == word@);
                    if more.contains(w) && w != word@ {
                        let j = choose|j: int| 0 <= j < more.len() && more[j] == w;
                        assert(part[j] == w);
                    }
                    if found.contains(w) {
                        let j = choose|j: int| 0 <= j < found.len() && found[j] == w;
                        assert(now[j] == w);
                    }
                    if now.contains(w) && w != word@ {
                        let j = choose|j: int| 0 <= j < now.len() && now[j] == w;
                        assert(found[j] == w);
                    }
                }
            }
            i = i + 1;
        }
        proof {
            let found = text::texts(fresh.words@);
            assert(all.take(i as int) =~= all);
            known.unique_seq_to_set();
            found.unique_seq_to_set();
            known.lemma_cardinality_of_set();
            found.lemma_cardinality_of_set();
            assert(known.to_set().disjoint(found.to_set())) by {
                assert forall|w: Seq<char>| known.to_set().contains(w) implies !found.to_set().contains(w) by {
                    assert(known.contains(w));
                    assert(!found.contains(w));
                }
            }
            vstd::set_lib::lemma_set_disjoint_lens(known.to_set(), found.to_set());
            assert(known.to_set() + found.to_set() =~= whole) by {
                assert forall|w: Seq<char>| (known.to_set() + found.to_set()).contains(w)
                    <==> #[trigger] whole.contains(w) by {
                    assert(found.contains(w) <==> all.contains(w) && !known.contains(w));
                }
            }
        }
        true
    }

    /// Adds a phrase. Words that were seen before keep their temporary ids, and new ones get theirs
    /// in the order in which they are first seen. The phrase is refused where that would make for
    /// more words than ids.
    pub fn insert<T: Word>(&mut self, phrase: &[T]) -> (r: Result<(), BuildError>)
        requires
            old(self).wf(),
        ensures
            final(self).wf(),
            match r {
                Ok(()) => {
                    &&& vocabulary(old(self)@.push(text::texts(phrase@))).len() <= ID_COUNT
                    &&& final(self)@ == old(self)@.push(text::texts(phrase@))
                    &&& final(self).interned() == interned_with(
                        old(self).interned(),
                        text::texts(phrase@),
                    )
                    &&& final(self).tmpid_phrases() == old(self).tmpid_phrases().push(
                        tmpids_of(final(self).interned(), text::texts(phrase@)),
                    )
                    &&& old(self).interned().is_prefix_of(final(self).interned())
                },
                Err(e) => {
                    &&& e == BuildError::TooManyWords
                    &&& vocabulary(old(self)@.push(text::texts(phrase@))).len() > ID_COUNT
                    &&& final(self)@ == old(self)@
                    &&& final(self).interned() == old(self).interned()
                    &&& final(self).tmpid_phrases() == old(self).tmpid_phrases()
                },
            },
    {
        if !self.has_room(phrase) {
            return Err(BuildError::TooManyWords);
        }
        let ghost whole = vocabulary(self@.push(text::texts(phrase@)));
        proof {
            self.lemma_vocabulary_with(text::texts(phrase@));
        }
        let ghost before = text::texts(self.words@);
        let ghost inserted = self@;
        let ghost all = text::texts(phrase@);
        let ghost phrases = ids_of(self.phrases@);
        let mut tmpid_phrase: Vec<u32> = Vec::with_capacity(phrase.len());
        let mut i: usize = 0;
        assert(before.take(before.len() as int) =~= before);
        while i < phrase.len()
            invariant
                all == text::texts(phrase@),
                i <= phrase@.len(),
                before.len() <= self.words@.len(),
                whole == before.to_set() + all.to_set(),
                whole.finite(),
                whole.len() <= ID_COUNT,
                ids_of(self.phrases@) == phrases,
                is_interned(text::texts(self.words@), self.tmpids@),
                text::texts(self.words@).take(before.len() as int) == before,
                text::texts(self.words@) == interned_with(before, all.take(i as int)),
                forall|id: int|
                    before.len() <= id < self.words@.len() ==> all.contains(
                        #[trigger] text::texts(self.words@)[id],
                    ),
                tmpid_phrase@.len() == i,
                forall|j: int| 0 <= j < i ==> #[trigger] tmpid_phrase@[j] < self.words@.len(),
                decoded(text::texts(self.words@), tmpid_phrase@) == all.take(i as int),
            decreases phrase@.len() - i,
        {
            let ghost known = text::texts(self.words@);
            let ghost ids = tmpid_phrase@;
            proof {
                let word = all[i as int];
                if !known.contains(word) {
                    let more = known.push(word);
                    assert(more.no_duplicates()) by {
                        assert(forall|k: int| 0 <= k < known.len() ==> known.contains(#[trigger] known[k]));
                    }
                    more.unique_seq_to_set();
                    assert forall|w: Seq<char>| more.to_set().contains(w) implies whole.contains(w) by {
                        assert(more.contains(w));
                        let k = choose|k: int| 0 <= k < more.len() && more[k] == w;
                        if k < before.len() {
                            assert(known.take(before.len() as int)[k] == known[k]);
                            assert(before[k] == w);
                        } else if k < known.len() {
                            assert(all.contains(known[k]));
                        } else {
                            assert(all.contains(word));
                        }
                    }
                    vstd::set_lib::lemma_len_subset(more.to_set(), whole);
                }
            }
            let word_id: u32 = self.intern(phrase[i].as_text());
            tmpid_phrase.push(word_id);
            proof {
                let now = text::texts(self.words@);
                assert(now.take(known.len() as int) =~= known);
                assert(now.take(before.len() as int) =~= known.take(before.len() as int));
                assert forall|id: int| before.len() <= id < now.len() implies all.contains(
                    #[trigger] now[id],
                ) by {
                    if id < known.len() {
                        assert(now[id] == known[id]);
                    } else {
                        assert(now[id] == all[i as int]);
                    }
                }
                assert forall|j: int| 0 <= j < i implies #[trigger] decoded(now, ids)[j]
                    == decoded(known, ids)[j] by {
                    assert(ids[j] == tmpid_phrase@[j]);
                    assert(known[ids[j] as int] == now[ids[j] as int]);
                }
                assert(decoded(now, ids) =~= all.take(i as int));
                assert(decoded(now, tmpid_phrase@) =~= decoded(now, ids).push(all[i as int]));
                assert(all.take(i + 1) =~= all.take(i as int).push(all[i as int]));
                assert(all.take(i + 1).drop_last() =~= all.take(i as int));
            }
            i = i + 1;
        }
        let ghost ids = tmpid_phrase@;
        self.phrases.push(tmpid_phrase);
        proof {
            let now = text::texts(self.words@);
            assert(all.take(i as int) =~= all);
            assert(ids_of(self.phrases@) =~= phrases.push(ids));
            assert forall|j: int| 0 <= j < ids.len() implies #[trigger] ids[j] == tmpids_of(now, all)[j] by {
                assert(decoded(now, ids)[j] == now[ids[j] as int]);
                assert(now[ids[j] as int] == all[j]);
                assert(now[now.index_of(all[j])] == all[j]);
            }
            assert(ids =~= tmpids_of(now, all));
            lemma_decoded_all_extends(before, now, phrases);
            assert(self@ =~= inserted.push(all));
            assert forall|id: int| 0 <= id < now.len() implies occurs(self@, #[trigger] now[id]) by {
                if id < before.len() {
                    assert(now.take(before.len() as int)[id] == now[id]);
                    assert(occurs(inserted, before[id]));
                    let k = choose|k: int|
                        0 <= k < inserted.len() && (#[trigger] inserted[k]).contains(before[id]);
                    assert(self@[k] == inserted[k]);
                } else {
                    assert(self@[inserted.len() as int].contains(now[id]));
                }
            }
        }
        Ok(())
    }

    /// Adds a phrase, which is cut at its spaces. That is no proper tokenization: where it is
    /// needed, use a tokenizer and call `insert`.
    pub fn insert_str(&mut self, phrase: &str) -> (r: Result<(), BuildError>)
        requires
            old(self).wf(),
        ensures
            final(self).wf(),
            match r {
                Ok(()) => {
                    &&& vocabulary(old(self)@.push(text::pieces(phrase@))).len() <= ID_COUNT
                    &&& final(self)@ == old(self)@.push(text::pieces(phrase@))
                    &&& final(self).interned() == interned_with(
                        old(self).interned(),
                        text::pieces(phrase@),
                    )
                    &&& final(self).tmpid_phrases() == old(self).tmpid_phrases().push(
                        tmpids_of(final(self).interned(), text::pieces(phrase@)),
                    )
                    &&& old(self).interned().is_prefix_of(final(self).interned())
                },
                Err(e) => {
                    &&& e == BuildError::TooManyWords
                    &&& vocabulary(old(self)@.push(text::pieces(phrase@))).len() > ID_COUNT
                    &&& final(self)@ == old(self)@
                    &&& final(self).interned() == old(self).interned()
                    &&& final(self).tmpid_phrases() == old(self).tmpid_phrases()
                },
            },
    {
        let phrase_v: Vec<&str> = text::split_words(phrase);
        self.insert(phrase_v.as_slice())
    }
}

/// What a function makes of the elements depends on how often each occurs, not on their order.
proof fn lemma_mapped_multisets<A, B>(s: Seq<A>, t: Seq<A>, f: spec_fn(A) -> B)
    requires
        s.to_multiset() == t.to_multiset(),
    ensures
        s.map_values(f).to_multiset() == t.map_values(f).to_multiset(),
    decreases s.len(),
{
    broadcast use vstd::seq_lib::group_to_multiset_ensures;

    assert(s.len() == s.to_multiset().len());
    assert(t.len() == t.to_multiset().len());
    if s.len() == 0 {
        assert(s.map_values(f) =~= t.map_values(f));
    } else {
        let x = s.last();
        assert(s.contains(x));
        assert(t.to_multiset().contains(x));
        let j = choose|j: int| 0 <= j < t.len() && t[j] == x;
        assert(s.remove(s.len() - 1) =~= s.drop_last());
        lemma_mapped_multisets(s.drop_last(), t.remove(j), f);
        assert(s.map_values(f) =~= s.drop_last().map_values(f).push(f(x)));
        assert(t.remove(j).map_values(f) =~= t.map_values(f).remove(j));
        assert(t.map_values(f)[j] == f(x));
        assert(t.map_values(f) =~= t.map_values(f).remove(j).insert(j, f(x)));
    }
}

/// Temporary ids, in the order of their words, become ids.
fn renumbering(tmpids: &Vec<u32>, Ghost(words): Ghost<Seq<Seq<char>>>) -> (ids: Vec<u32>)
    requires
        is_interned(words, tmpids@),
    ensures
        ids@.len() == words.len(),
        forall|id: int| 0 <= id < words.len() ==> #[trigger] ids@[id] < words.len(),
        forall|id: int|
            0 <= id < words.len() ==> decoded(words, tmpids@)[(#[trigger] ids@[id]) as int] == words[id],
{
    let n: usize = tmpids.len();
    let mut ids: Vec<u32> = Vec::new();
    while ids.len() < n
        invariant
            ids@.len() <= n,
        decreases n - ids@.len(),
    {
        ids.push(0);
    }
    let ghost ranked = decoded(words, tmpids@);
    let mut k: usize = 0;
    while k < n
        invariant
            is_interned(words, tmpids@),
            ranked == decoded(words, tmpids@),
            n == words.len(),
            ids@.len() == n,
            k <= n,
            forall|m: int| 0 <= m < k ==> ids@[(#[trigger] tmpids@[m]) as int] == m,
        decreases n - k,
    {
        let id: u32 = tmpids[k];
        ids.set(id as usize, k as u32);
        proof {
            order::text_order_is_strict();
            assert forall|m: int| 0 <= m < k + 1 implies ids@[(#[trigger] tmpids@[m]) as int] == m by {
                if m < k {
                    assert(order::text_order()(ranked[m], ranked[k as int]));
                    assert(tmpids@[m] != id);
                }
            }
        }
        k = k + 1;
    }
    proof {
        assert forall|id: int| 0 <= id < words.len() implies #[trigger] ids@[id] < words.len()
            && ranked[ids@[id] as int] == words[id] by {
            assert(tmpids@.contains(id as u32));
            let m = choose|m: int| 0 <= m < tmpids@.len() && tmpids@[m] == id as u32;
            assert(ids@[tmpids@[m] as int] == m);
            assert(ranked[m] == words[id]);
        }
    }
    ids
}

/// Replaces the ids of a phrase.
fn renumber(phrase: &Vec<u32>, ids: &Vec<u32>) -> (r: Vec<u32>)
    requires
        forall|j: int| 0 <= j < phrase@.len() ==> #[trigger] phrase@[j] < ids@.len(),
    ensures
        r@ == phrase@.map_values(|id: u32| ids@[id as int]),
{
    let mut r: Vec<u32> = Vec::with_capacity(phrase.len());
    let mut j: usize = 0;
    while j < phrase.len()
        invariant
            forall|j: int| 0 <= j < phrase@.len() ==> #[trigger] phrase@[j] < ids@.len(),
            j <= phrase@.len(),
            r@.len() == j,
            forall|m: int| 0 <= m < j ==> #[trigger] r@[m] == ids@[phrase@[m] as int],
        decreases phrase@.len() - j,
    {
        r.push(ids[phrase[j] as usize]);
        j = j + 1;
    }
    assert(r@ =~= phrase@.map_values(|id: u32| ids@[id as int]));
    r
}

impl FuzzyPhraseSetBuilder {
    /// Works out what the indexes have to hold: the words get their ids in alphabetical order,
    /// the phrases are renumbered and put in order, and the words are picked out that `pattern`
    /// accepts.
    pub fn plan(self, pattern: &ScriptPattern) -> (plan: IndexPlan)
        requires
            self.wf(),
        ensures
            lays_out(self@, text::texts(plan.words@), ids_of(plan.phrases@)),
            plan.fuzzy_ids@ == accepted_ids(pattern, text::texts(plan.words@)),
            plan.metadata@ == metadata::current(),
    {
        let ghost known = text::texts(self.words@);
        let ghost old_ids = ids_of(self.phrases@);
        let ghost ranked = decoded(known, self.tmpids@);
        let ids = renumbering(&self.tmpids, Ghost(known));
        let n: usize = self.tmpids.len();
        let mut words: Vec<String> = Vec::with_capacity(n);
        let mut fuzzy_ids: Vec<u32> = Vec::new();
        let mut id: usize = 0;
        assert(ranked.take(0) =~= Seq::<Seq<char>>::empty());
        assert(text::texts(words@) =~= ranked.take(0));
        while id < n
            invariant
                known == text::texts(self.words@),
                is_interned(known, self.tmpids@),
                ranked == decoded(known, self.tmpids@),
                n == known.len(),
                id <= n,
                text::texts(words@) == ranked.take(id as int),
                fuzzy_ids@ == accepted_ids(pattern, ranked.take(id as int)),
            decreases n - id,
        {
            let ghost before = words@;
            let tmpid: u32 = self.tmpids[id];
            let word: &String = &self.words[tmpid as usize];
            proof {
                assert(ranked[id as int] == word@);
                assert(ranked.take(id + 1).drop_last() =~= ranked.take(id as int));
                assert(ranked.take(id + 1) =~= ranked.take(id as int).push(word@));
            }
            if pattern.can_fuzzy_match(word.as_str()) {
                fuzzy_ids.push(id as u32);
            }
            words.push(word.clone());
            assert(text::texts(words@) =~= text::texts(before).push(word@));
            id = id + 1;
        }
        assert(ranked.take(id as int) =~= ranked);
        let mut phrases: Vec<Vec<u32>> = Vec::with_capacity(self.phrases.len());
        let mut p: usize = 0;
        while p < self.phrases.len()
            invariant
                known == text::texts(self.words@),
                is_interned(known, self.tmpids@),
                ranked == decoded(known, self.tmpids@),
                old_ids == ids_of(self.phrases@),
                in_range(known.len() as int, old_ids),
                ids@.len() == known.len(),
                forall|id: int| 0 <= id < known.len() ==> #[trigger] ids@[id] < known.len(),
                forall|id: int|
                    0 <= id < known.len() ==> ranked[(#[trigger] ids@[id]) as int] == known[id],
                p <= self.phrases@.len(),
                phrases@.len() == p,
                in_range(known.len() as int, ids_of(phrases@)),
                decoded_all(ranked, ids_of(phrases@)) == decoded_all(known, old_ids).take(p as int),
            decreases self.phrases@.len() - p,
        {
            let ghost before = ids_of(phrases@);
            let phrase = &self.phrases[p];
            assert(old_ids[p as int] == phrase@);
            assert forall|j: int| 0 <= j < phrase@.len() implies #[trigger] phrase@[j] < ids@.len() by {
                assert(old_ids[p as int][j] < known.len());
            }
            let renumbered = renumber(phrase, &ids);
            let ghost now = renumbered@;
            phrases.push(renumbered);
            proof {
                assert(ids_of(phrases@) =~= before.push(now));
                assert(decoded(ranked, now) =~= decoded(known, phrase@));
                assert(decoded_all(ranked, ids_of(phrases@)) =~= decoded_all(ranked, before).push(
                    decoded(known, phrase@),
                ));
                assert(decoded_all(known, old_ids)[p as int] == decoded(known, phrase@));
                assert forall|i: int, j: int|
                    0 <= i < ids_of(phrases@).len() && 0 <= j < ids_of(phrases@)[i].len() implies
                    #[trigger] ids_of(phrases@)[i][j] < known.len() by {
                    if i < p {
                        assert(before[i][j] < known.len());
                    } else {
                        assert(now[j] == ids@[phrase@[j] as int]);
                    }
                }
            }
            p = p + 1;
        }
        proof {
            assert(decoded_all(known, old_ids).take(p as int) =~= self@);
        }
        let ghost unsorted = ids_of(phrases@);
        assert(order::keys(phrases@) =~= unsorted);
        let phrases = order::sort(phrases);
        proof {
            broadcast use vstd::seq_lib::group_to_multiset_ensures;

            let done = ids_of(phrases@);
            assert(order::keys(phrases@) =~= done);
            lemma_mapped_multisets(done, unsorted, |ids: Seq<u32>| decoded(ranked, ids));
            assert forall|i: int, j: int| 0 <= i < done.len() && 0 <= j < done[i].len() implies
                #[trigger] done[i][j] < known.len() by {
                assert(done.contains(done[i]));
                assert(unsorted.to_multiset().contains(done[i]));
                assert(unsorted.contains(done[i]));
                let k = choose|k: int| 0 <= k < unsorted.len() && unsorted[k] == done[i];
                assert(unsorted[k][j] < known.len());
            }
            assert forall|w: Seq<char>| #[trigger] ranked.contains(w) <==> occurs(self@, w) by {
                if ranked.contains(w) {
                    let k = choose|k: int| 0 <= k < ranked.len() && ranked[k] == w;
                    assert(self.tmpids@[k] < known.len());
                    assert(occurs(self@, known[self.tmpids@[k] as int]));
                }
                if occurs(self@, w) {
                    let i = choose|i: int| 0 <= i < self@.len() && (#[trigger] self@[i]).contains(w);
                    let j = choose|j: int| 0 <= j < self@[i].len() && self@[i][j] == w;
                    let id = old_ids[i][j];
                    assert(id < known.len());
                    assert(known[id as int] == w);
                    assert(ranked[ids@[id as int] as int] == w);
                }
            }
        }
        IndexPlan { words, fuzzy_ids, phrases, metadata: FuzzyPhraseSetMetadata::default() }
    }

    /// Works out what the indexes have to hold, if there is a pattern for the scripts in which words
    /// can be found by an approximate spelling.
    pub fn plan_with(self, compiled: Result<ScriptPattern, ScriptError>) -> (r: Result<
        IndexPlan,
        BuildError,
    >)
        requires
            self.wf(),
        ensures
            match compiled {
                Ok(pattern) => {
                    &&& r matches Ok(plan)
                    &&& lays_out(self@, text::texts(plan.words@), ids_of(plan.phrases@))
                    &&& plan.fuzzy_ids@ == accepted_ids(&pattern, text::texts(plan.words@))
                    &&& plan.metadata@ == metadata::current()
                },
                Err(s) => r == Err::<IndexPlan, BuildError>(BuildError::Script(s)),
            },
    {
        match compiled {
            Ok(pattern) => Ok(self.plan(&pattern)),
            Err(e) => Err(BuildError::Script(e)),
        }
    }

    /// Looks up the scripts in which words can be found by an approximate spelling, and works out
    /// what the indexes have to hold.
    pub fn finish<S, Q, B>(self, scripts: &ScriptTable<Q, B>) -> (r: Result<IndexPlan, BuildError>) where
        Q: Fn(&str) -> Option<S>,
        B: Fn(&Vec<S>) -> String,

        requires
            self.wf(),
            scripts.callable(),
        ensures
            match r {
                Ok(plan) => {
                    &&& lays_out(self@, text::texts(plan.words@), ids_of(plan.phrases@))
                    &&& exists|pattern: ScriptPattern| #[trigger]
                        scripts.may_compile(
                            metadata::current().fuzzy_enabled_scripts,
                            Ok(pattern),
                        ) && plan.fuzzy_ids@ == accepted_ids(&pattern, text::texts(plan.words@))
                    &&& plan.metadata@ == metadata::current()
                },
                Err(e) => exists|s: ScriptError| #[trigger]
                    scripts.may_compile(metadata::current().fuzzy_enabled_scripts, Err(s)) && e
                        == BuildError::Script(s),
            },
    {
        let described = FuzzyPhraseSetMetadata::default();
        let ghost names = metadata::current().fuzzy_enabled_scripts;
        assert(described@.fuzzy_enabled_scripts == names);
        let compiled = scripts.compile(&described.fuzzy_enabled_scripts);
        assert(scripts.may_compile(names, compiled));
        self.plan_with(compiled)
    }
}

} // verus!
