//! What is written down of a phrase set beside its indexes.
use vstd::prelude::*;
use crate::text;

verus! {

broadcast use vstd::string::group_string_axioms;

/// The kind and version of a set of indexes, and the scripts in which words can be found by an
/// approximate spelling.
#[derive(Debug, PartialEq, Eq, Clone)]
pub struct FuzzyPhraseSetMetadata {
    pub index_type: String,
    pub format_version: u32,
    pub fuzzy_enabled_scripts: Vec<String>,
}

/// Metadata as a mathematical value.
pub struct Metadata {
    pub index_type: Seq<char>,
    pub format_version: u32,
    pub fuzzy_enabled_scripts: Seq<Seq<char>>,
}

impl View for FuzzyPhraseSetMetadata {
    type V = Metadata;

    open spec fn view(&self) -> Metadata {
        Metadata {
            index_type: self.index_type@,
            format_version: self.format_version,
            fuzzy_enabled_scripts: text::texts(self.fuzzy_enabled_scripts@),
        }
    }
}

/// The metadata of the indexes that this library builds and reads.
pub open spec fn current() -> Metadata {
    Metadata {
        index_type: "fuzzy_phrase_set"@,
        format_version: 1,
        fuzzy_enabled_scripts: seq!["Latin"@, "Greek"@, "Cyrillic"@],
    }
}

impl Default for FuzzyPhraseSetMetadata {
    fn default() -> (r: FuzzyPhraseSetMetadata)
        ensures
            r@ == current(),
    {
        let r = FuzzyPhraseSetMetadata {
            index_type: "fuzzy_phrase_set".to_owned(),
            format_version: 1,
            fuzzy_enabled_scripts: vec![
                "Latin".to_owned(),
                "Greek".to_owned(),
                "Cyrillic".to_owned(),
            ],
        };
        assert(r@.fuzzy_enabled_scripts =~= current().fuzzy_enabled_scripts);
        r
    }
}

impl FuzzyPhraseSetMetadata {
    /// Whether two descriptions are the same.
    pub fn same(&self, other: &FuzzyPhraseSetMetadata) -> (r: bool)
        ensures
            r == (self@ == other@),
    {
        if !text::same_text(self.index_type.as_str(), other.index_type.as_str()) {
            return false;
        }
        if self.format_version != other.format_version {
            return false;
        }
        let ghost a = self@.fuzzy_enabled_scripts;
        let ghost b = other@.fuzzy_enabled_scripts;
        if self.fuzzy_enabled_scripts.len() != other.fuzzy_enabled_scripts.len() {
            assert(a.len() != b.len());
            return false;
        }
        let mut i: usize = 0;
        while i < self.fuzzy_enabled_scripts.len()
            invariant
                a == text::texts(self.fuzzy_enabled_scripts@),
                b == text::texts(other.fuzzy_enabled_scripts@),
                a == self@.fuzzy_enabled_scripts,
                b == other@.fuzzy_enabled_scripts,
                a.len() == b.len(),
                i <= a.len(),
                forall|j: int| 0 <= j < i ==> a[j] == #[trigger] b[j],
            decreases a.len() - i,
        {
            if !text::same_text(
                self.fuzzy_enabled_scripts[i].as_str(),
                other.fuzzy_enabled_scripts[i].as_str(),
            ) {
                assert(a[i as int] != b[i as int]);
                return false;
            }
            i = i + 1;
        }
        assert(a =~= b);
        true
    }
}

} // verus!
