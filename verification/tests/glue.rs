use fuzzy_phrase::builder::{BuildError, DirectoryAction, FuzzyPhraseSetBuilder, IndexPlan};
use fuzzy_phrase::index::{FuzzyMap, PhraseSet, PrefixSet};
use fuzzy_phrase::metadata::FuzzyPhraseSetMetadata;
use fuzzy_phrase::open::{expect_current, Listing, OpenError};
use fuzzy_phrase::query::{FuzzyMapLookupResult, QueryWord};
use fuzzy_phrase::script::{ScriptError, ScriptPattern, ScriptTable};
use fuzzy_phrase::search::{FuzzyMatchResult, FuzzyPhraseSet, SearchError};
use fuzzy_phrase::windows::FuzzyWindowResult;

// A small index in memory: words by id, the ids that fuzzy lookups know, and phrases.

fn id_of(words: Vec<String>) -> impl Fn(&str) -> Option<u64> {
    move |word| words.iter().position(|w| w == word).map(|i| i as u64)
}

fn range_of(words: Vec<String>) -> impl Fn(&str) -> Option<(u64, u64)> {
    move |start| {
        let first = words.iter().position(|w| w.starts_with(start))?;
        let last = words.iter().rposition(|w| w.starts_with(start))?;
        Some((first as u64, last as u64))
    }
}

fn edits(a: &str, b: &str) -> usize {
    let b: Vec<char> = b.chars().collect();
    let mut row: Vec<usize> = (0..b.len() + 1).collect();
    for (i, x) in a.chars().enumerate() {
        let mut next = vec![i + 1];
        for (j, y) in b.iter().enumerate() {
            let swap = row[j] + if x == *y { 0 } else { 1 };
            next.push(swap.min(row[j + 1] + 1).min(next[j] + 1));
        }
        row = next;
    }
    row[b.len()]
}

fn find(
    fuzzy_ids: Vec<u32>,
) -> impl Fn(&str, u8, &Vec<String>) -> Result<Vec<FuzzyMapLookupResult>, String> {
    move |word, max, words| {
        let mut hits = Vec::new();
        for &id in &fuzzy_ids {
            let distance = edits(word, &words[id as usize]);
            if distance <= max as usize {
                hits.push(FuzzyMapLookupResult { id, edit_distance: distance as u8 });
            }
        }
        Ok(hits)
    }
}

fn covers(query: &[QueryWord], phrase: &[u32]) -> bool {
    query.len() <= phrase.len()
        && query.iter().zip(phrase).all(|(q, id)| match q {
            QueryWord::Full { id: own, .. } => own == id,
            QueryWord::Prefix { id_range } => id_range.0 <= *id && *id <= id_range.1,
        })
}

fn is_phrase(phrases: &[Vec<u32>], query: &[QueryWord]) -> bool {
    query.iter().all(|q| matches!(q, QueryWord::Full { .. }))
        && phrases.iter().any(|p| p.len() == query.len() && covers(query, p))
}

fn is_beginning(phrases: &[Vec<u32>], query: &[QueryWord]) -> bool {
    phrases.iter().any(|p| covers(query, p))
}

fn distance(query: &[QueryWord]) -> usize {
    query
        .iter()
        .map(|q| match q {
            QueryWord::Full { edit_distance, .. } => *edit_distance as usize,
            QueryWord::Prefix { .. } => 0,
        })
        .sum()
}

fn picks(slots: &[Vec<QueryWord>], max: u8) -> Vec<Vec<QueryWord>> {
    let mut all: Vec<Vec<QueryWord>> = vec![vec![]];
    for slot in slots {
        let mut longer = Vec::new();
        for start in &all {
            for word in slot {
                let mut pick = start.clone();
                pick.push(*word);
                if distance(&pick) <= max as usize {
                    longer.push(pick);
                }
            }
        }
        all = longer;
    }
    all
}

fn holds(phrases: Vec<Vec<u32>>) -> impl Fn(&Vec<QueryWord>) -> Result<bool, String> {
    move |query| Ok(is_phrase(&phrases, query))
}

fn holds_prefix(phrases: Vec<Vec<u32>>) -> impl Fn(&Vec<QueryWord>) -> Result<bool, String> {
    move |query| Ok(is_beginning(&phrases, query))
}

fn combine(
    phrases: Vec<Vec<u32>>,
) -> impl Fn(&Vec<Vec<QueryWord>>, u8) -> Result<Vec<Vec<QueryWord>>, String> {
    move |slots, max| Ok(picks(slots, max).into_iter().filter(|c| is_phrase(&phrases, c)).collect())
}

fn combine_prefixes(
    phrases: Vec<Vec<u32>>,
) -> impl Fn(&Vec<Vec<QueryWord>>, u8) -> Result<Vec<Vec<QueryWord>>, String> {
    move |slots, max| {
        Ok(picks(slots, max).into_iter().filter(|c| is_beginning(&phrases, c)).collect())
    }
}

fn combine_windows(
    phrases: Vec<Vec<u32>>,
) -> impl Fn(&[Vec<QueryWord>], u8, bool) -> Result<Vec<(Vec<QueryWord>, bool)>, String> {
    move |slots, max, ends_in_prefix| {
        let mut found = Vec::new();
        for n in 1..slots.len() + 1 {
            for pick in picks(&slots[..n], max) {
                if n == slots.len() && ends_in_prefix {
                    if is_beginning(&phrases, &pick) {
                        found.push((pick, true));
                    }
                } else if is_phrase(&phrases, &pick) {
                    found.push((pick, false));
                }
            }
        }
        Ok(found)
    }
}

fn by_name(name: &str) -> Option<String> {
    let known = ["Latin", "Greek", "Cyrillic", "Thai"];
    if known.contains(&name) {
        Some(name.to_string())
    } else {
        None
    }
}

fn pattern_for(scripts: &Vec<String>) -> String {
    let classes: Vec<String> = scripts.iter().map(|s| format!("\\p{{{}}}", s)).collect();
    format!("^[{}]+$", classes.concat())
}

fn complete() -> Listing {
    Listing { is_there: true, is_dir: true, has_prefix_set: true, has_phrase_set: true }
}

fn plan_of(phrases: &[&str]) -> IndexPlan {
    let (mut builder, _) = FuzzyPhraseSetBuilder::new(true, true).unwrap();
    for phrase in phrases {
        builder.insert_str(phrase).unwrap();
    }
    builder.finish(&ScriptTable { by_name, pattern_for }).unwrap()
}

fn set_of(
    phrases: &[&str],
) -> FuzzyPhraseSet<
    impl Fn(&str) -> Option<u64>,
    impl Fn(&str) -> Option<(u64, u64)>,
    impl Fn(&str, u8, &Vec<String>) -> Result<Vec<FuzzyMapLookupResult>, String>,
    impl Fn(&Vec<QueryWord>) -> Result<bool, String>,
    impl Fn(&Vec<QueryWord>) -> Result<bool, String>,
    impl Fn(&Vec<Vec<QueryWord>>, u8) -> Result<Vec<Vec<QueryWord>>, String>,
    impl Fn(&Vec<Vec<QueryWord>>, u8) -> Result<Vec<Vec<QueryWord>>, String>,
    impl Fn(&[Vec<QueryWord>], u8, bool) -> Result<Vec<(Vec<QueryWord>, bool)>, String>,
> {
    open_plan(complete(), plan_of(phrases)).unwrap()
}

fn open_plan(
    listing: Listing,
    plan: IndexPlan,
) -> Result<
    FuzzyPhraseSet<
        impl Fn(&str) -> Option<u64>,
        impl Fn(&str) -> Option<(u64, u64)>,
        impl Fn(&str, u8, &Vec<String>) -> Result<Vec<FuzzyMapLookupResult>, String>,
        impl Fn(&Vec<QueryWord>) -> Result<bool, String>,
        impl Fn(&Vec<QueryWord>) -> Result<bool, String>,
        impl Fn(&Vec<Vec<QueryWord>>, u8) -> Result<Vec<Vec<QueryWord>>, String>,
        impl Fn(&Vec<Vec<QueryWord>>, u8) -> Result<Vec<Vec<QueryWord>>, String>,
        impl Fn(&[Vec<QueryWord>], u8, bool) -> Result<Vec<(Vec<QueryWord>, bool)>, String>,
    >,
    OpenError<String>,
> {
    let words = plan.words;
    let phrases = plan.phrases;
    let bytes: Vec<Vec<u8>> = words.iter().map(|w| w.clone().into_bytes()).collect();
    FuzzyPhraseSet::from_path(
        listing,
        Ok(plan.metadata),
        &ScriptTable { by_name, pattern_for },
        Ok((PrefixSet { id_of: id_of(words.clone()), range_of: range_of(words) }, bytes)),
        Ok(PhraseSet {
            holds: holds(phrases.clone()),
            holds_prefix: holds_prefix(phrases.clone()),
            combine: combine(phrases.clone()),
            combine_prefixes: combine_prefixes(phrases.clone()),
            combine_windows: combine_windows(phrases),
        }),
        Ok(FuzzyMap { find: find(plan.fuzzy_ids) }),
    )
}

const STREETS: [&str; 4] = ["100 main street", "200 main street", "100 main ave", "300 mlk blvd"];

fn found(phrase: &[&str], edit_distance: u8) -> FuzzyMatchResult {
    FuzzyMatchResult { phrase: phrase.iter().map(|w| w.to_string()).collect(), edit_distance }
}

fn window(
    phrase: &[&str],
    edit_distance: u8,
    start_position: usize,
    ends_in_prefix: bool,
) -> FuzzyWindowResult {
    let phrase = phrase.iter().map(|w| w.to_string()).collect();
    FuzzyWindowResult { phrase, edit_distance, start_position, ends_in_prefix }
}

#[test]
fn glue_build() {
    let set = set_of(&STREETS);
    assert_eq!(
        set.word_list,
        vec!["100", "200", "300", "ave", "blvd", "main", "mlk", "street"]
    );
}

#[test]
fn glue_contains() {
    let set = set_of(&STREETS);
    assert!(set.contains_str("100 main street").unwrap());
    assert!(set.contains_str("200 main street").unwrap());
    assert!(set.contains_str("100 main ave").unwrap());
    assert!(set.contains_str("300 mlk blvd").unwrap());
}

#[test]
fn glue_test_asref() {
    let set = set_of(&STREETS);
    assert!(set.contains_str("100 main street").unwrap());
    let phrase_static = ["100", "main", "street"];
    assert!(set.contains(&phrase_static).unwrap());
    let phrase_vec: Vec<String> =
        vec!["100".to_string(), "main".to_string(), "street".to_string()];
    assert!(set.contains(&phrase_vec).unwrap());
    let ref_phrase_vec: Vec<&str> = phrase_vec.iter().map(|s| s.as_str()).collect();
    assert!(set.contains(&ref_phrase_vec).unwrap());
}

#[test]
fn glue_doesnt_contain() {
    let set = set_of(&STREETS);
    assert!(!set.contains_str("x").unwrap());
    assert!(!set.contains_str("100 main").unwrap());
    assert!(!set.contains_str("100 main s").unwrap());
    assert!(!set.contains_str("100 main streetr").unwrap());
    assert!(!set.contains_str("100 main street r").unwrap());
    assert!(!set.contains_str("100 main street ave").unwrap());
}

#[test]
fn glue_contains_prefix_exact() {
    let set = set_of(&STREETS);
    assert!(set.contains_prefix_str("100 main street").unwrap());
    assert!(set.contains_prefix_str("200 main street").unwrap());
    assert!(set.contains_prefix_str("100 main ave").unwrap());
    assert!(set.contains_prefix_str("300 mlk blvd").unwrap());
}

#[test]
fn glue_contains_prefix_partial_word() {
    let set = set_of(&STREETS);
    assert!(set.contains_prefix_str("100 main stree").unwrap());
    assert!(set.contains_prefix_str("200 main stree").unwrap());
    assert!(set.contains_prefix_str("100 main av").unwrap());
    assert!(set.contains_prefix_str("300 mlk blv").unwrap());
}

#[test]
fn glue_contains_prefix_dropped_word() {
    let set = set_of(&STREETS);
    assert!(set.contains_prefix_str("100 main").unwrap());
    assert!(set.contains_prefix_str("200 main").unwrap());
    assert!(set.contains_prefix_str("100 main").unwrap());
    assert!(set.contains_prefix_str("300 mlk").unwrap());
}

#[test]
fn glue_doesnt_contain_prefix() {
    let set = set_of(&STREETS);
    assert!(!set.contains_prefix_str("100 man").unwrap());
    assert!(!set.contains_prefix_str("400 main").unwrap());
    assert!(!set.contains_prefix_str("100 main street x").unwrap());
}

#[test]
fn glue_fuzzy_match() {
    let set = set_of(&STREETS);
    assert_eq!(
        set.fuzzy_match(&["100", "man", "street"], 1, 1).unwrap(),
        vec![FuzzyMatchResult {
            phrase: vec!["100".to_string(), "main".to_string(), "street".to_string()],
            edit_distance: 1
        }]
    );
    assert_eq!(
        set.fuzzy_match(&["100", "man", "stret"], 1, 2).unwrap(),
        vec![FuzzyMatchResult {
            phrase: vec!["100".to_string(), "main".to_string(), "street".to_string()],
            edit_distance: 2
        }]
    );
}

#[test]
fn glue_fuzzy_match_prefix() {
    let set = set_of(&STREETS);
    assert_eq!(
        set.fuzzy_match_prefix(&["100", "man"], 1, 1).unwrap(),
        vec![FuzzyMatchResult {
            phrase: vec!["100".to_string(), "main".to_string()],
            edit_distance: 1
        }]
    );
    assert_eq!(
        set.fuzzy_match_prefix(&["100", "man", "str"], 1, 1).unwrap(),
        vec![FuzzyMatchResult {
            phrase: vec!["100".to_string(), "main".to_string(), "str".to_string()],
            edit_distance: 1
        }]
    );
}

#[test]
fn glue_fuzzy_match_windows() {
    let set = set_of(&STREETS);
    assert_eq!(
        set.fuzzy_match_windows(&["100", "main", "street", "washington", "300"], 1, 1, true)
            .unwrap(),
        vec![
            FuzzyWindowResult {
                phrase: vec!["100".to_string(), "main".to_string(), "street".to_string()],
                edit_distance: 0,
                start_position: 0,
                ends_in_prefix: false
            },
            FuzzyWindowResult {
                phrase: vec!["300".to_string()],
                edit_distance: 0,
                start_position: 4,
                ends_in_prefix: true
            }
        ]
    );
    assert_eq!(
        set.fuzzy_match_windows(&["100", "main", "street", "washington", "300"], 1, 1, false)
            .unwrap(),
        vec![FuzzyWindowResult {
            phrase: vec!["100".to_string(), "main".to_string(), "street".to_string()],
            edit_distance: 0,
            start_position: 0,
            ends_in_prefix: false
        }]
    );
}

#[test]
fn glue_fuzzy_match_multi() {
    let set = set_of(&STREETS);
    assert_eq!(
        set.fuzzy_match_multi(
            &[
                (&["100"], false),
                (&["100", "main"], false),
                (&["100", "main", "street"], true),
                (&["300"], false),
                (&["300", "mlk"], false),
                (&["300", "mlk", "blvd"], true),
            ],
            1,
            1
        )
        .unwrap(),
        vec![
            vec![],
            vec![],
            vec![FuzzyMatchResult {
                phrase: vec!["100".to_string(), "main".to_string(), "street".to_string()],
                edit_distance: 0
            }],
            vec![],
            vec![],
            vec![FuzzyMatchResult {
                phrase: vec!["300".to_string(), "mlk".to_string(), "blvd".to_string()],
                edit_distance: 0
            }]
        ]
    );
}

#[test]
fn a_plan_numbers_words_alphabetically() {
    let plan = plan_of(&STREETS);
    assert_eq!(plan.words, vec!["100", "200", "300", "ave", "blvd", "main", "mlk", "street"]);
    assert_eq!(plan.fuzzy_ids, vec![3, 4, 5, 6, 7]);
    assert_eq!(
        plan.phrases,
        vec![vec![0, 5, 3], vec![0, 5, 7], vec![1, 5, 7], vec![2, 6, 4]]
    );
    assert_eq!(plan.metadata, FuzzyPhraseSetMetadata::default());
}

#[test]
fn a_plan_does_not_depend_on_the_order_of_insertion() {
    let forth = plan_of(&STREETS);
    let back = plan_of(&["300 mlk blvd", "100 main ave", "200 main street", "100 main street"]);
    assert_eq!(forth.words, back.words);
    assert_eq!(forth.fuzzy_ids, back.fuzzy_ids);
    assert_eq!(forth.phrases, back.phrases);
}

#[test]
fn a_phrase_that_is_inserted_twice_is_planned_twice() {
    let plan = plan_of(&["b a", "b a"]);
    assert_eq!(plan.words, vec!["a", "b"]);
    assert_eq!(plan.phrases, vec![vec![1, 0], vec![1, 0]]);
}

#[test]
fn shorter_phrases_come_before_those_they_begin() {
    let plan = plan_of(&["a b", "a", "a b c"]);
    assert_eq!(plan.phrases, vec![vec![0], vec![0, 1], vec![0, 1, 2]]);
}

#[test]
fn words_are_ordered_by_code_point() {
    let plan = plan_of(&["\u{e9} z \u{1f600} \u{ffff} Z a"]);
    assert_eq!(plan.words, vec!["Z", "a", "z", "\u{e9}", "\u{ffff}", "\u{1f600}"]);
    assert_eq!(plan.phrases, vec![vec![3, 2, 5, 4, 0, 1]]);
}

#[test]
fn spaces_cut_a_phrase_into_pieces() {
    let plan = plan_of(&["a  b "]);
    assert_eq!(plan.words, vec!["", "a", "b"]);
    assert_eq!(plan.phrases, vec![vec![1, 0, 2, 0]]);
    let set = set_of(&["a  b "]);
    assert!(set.contains(&["a", "", "b", ""]).unwrap());
    assert!(!set.contains(&["a", "b"]).unwrap());
}

#[test]
fn an_empty_builder_plans_empty_indexes() {
    let plan = plan_of(&[]);
    assert!(plan.words.is_empty());
    assert!(plan.fuzzy_ids.is_empty());
    assert!(plan.phrases.is_empty());
    let default = FuzzyPhraseSetBuilder::default();
    let plan = default.finish(&ScriptTable { by_name, pattern_for }).unwrap();
    assert!(plan.phrases.is_empty());
}

#[test]
fn an_empty_phrase_can_be_inserted() {
    let (mut builder, _) = FuzzyPhraseSetBuilder::new(true, true).unwrap();
    let none: [&str; 0] = [];
    builder.insert(&none).unwrap();
    builder.insert(&["a".to_string()]).unwrap();
    let plan = builder.finish(&ScriptTable { by_name, pattern_for }).unwrap();
    assert_eq!(plan.phrases, vec![vec![], vec![0]]);
    let set = open_plan(complete(), plan).unwrap();
    assert!(set.contains(&none).unwrap());
    assert!(set.contains_prefix(&none).unwrap());
    assert_eq!(set.fuzzy_match(&none, 1, 1).unwrap(), vec![found(&[], 0)]);
    assert_eq!(set.fuzzy_match_prefix(&none, 1, 1).unwrap(), vec![]);
}

#[test]
fn a_builder_wants_a_directory() {
    assert_eq!(
        FuzzyPhraseSetBuilder::new(true, false).err(),
        Some(BuildError::NotADirectory)
    );
    assert_eq!(FuzzyPhraseSetBuilder::new(true, true).unwrap().1, DirectoryAction::Keep);
    assert_eq!(FuzzyPhraseSetBuilder::new(false, false).unwrap().1, DirectoryAction::Create);
}

#[test]
fn a_builder_wants_known_scripts() {
    let builder = FuzzyPhraseSetBuilder::default();
    let scripts = ScriptTable {
        by_name: |name: &str| if name == "Greek" { None } else { Some(name.to_string()) },
        pattern_for,
    };
    assert_eq!(
        builder.finish(&scripts).err(),
        Some(BuildError::Script(ScriptError::UnknownScript))
    );
}

#[test]
fn a_builder_wants_a_pattern() {
    let builder = FuzzyPhraseSetBuilder::default();
    let scripts = ScriptTable { by_name, pattern_for: |_: &Vec<String>| "(".to_string() };
    assert_eq!(builder.finish(&scripts).err(), Some(BuildError::Script(ScriptError::BadPattern)));
}

#[test]
fn opening_wants_a_directory() {
    let nothing = Listing { is_there: false, ..complete() };
    assert_eq!(open_plan(nothing, plan_of(&STREETS)).err(), Some(OpenError::NotADirectory));
    let file = Listing { is_dir: false, ..complete() };
    assert_eq!(open_plan(file, plan_of(&STREETS)).err(), Some(OpenError::NotADirectory));
}

#[test]
fn opening_wants_both_graphs() {
    let listing = Listing { has_prefix_set: false, has_phrase_set: false, ..complete() };
    assert_eq!(open_plan(listing, plan_of(&STREETS)).err(), Some(OpenError::NoPrefixSet));
    let listing = Listing { has_phrase_set: false, ..complete() };
    assert_eq!(open_plan(listing, plan_of(&STREETS)).err(), Some(OpenError::NoPhraseSet));
}

#[test]
fn opening_wants_the_metadata_of_this_library() {
    let mut plan = plan_of(&STREETS);
    plan.metadata.format_version = 2;
    assert_eq!(open_plan(complete(), plan).err(), Some(OpenError::UnexpectedMetadata));
    let mut plan = plan_of(&STREETS);
    plan.metadata.index_type = "phrase_set".to_string();
    assert_eq!(open_plan(complete(), plan).err(), Some(OpenError::UnexpectedMetadata));
    let mut plan = plan_of(&STREETS);
    plan.metadata.fuzzy_enabled_scripts.swap(0, 1);
    assert_eq!(open_plan(complete(), plan).err(), Some(OpenError::UnexpectedMetadata));
    let mut plan = plan_of(&STREETS);
    plan.metadata.fuzzy_enabled_scripts.push("Thai".to_string());
    assert_eq!(open_plan(complete(), plan).err(), Some(OpenError::UnexpectedMetadata));
}

#[test]
fn opening_fails_with_the_first_thing_that_fails() {
    let lost = |what: &str| -> OpenError<String> { OpenError::Read(what.to_string()) };
    let scripts = ScriptTable { by_name, pattern_for };
    let open = |metadata: Result<FuzzyPhraseSetMetadata, String>,
                words: Result<Vec<Vec<u8>>, String>,
                phrases: Result<Vec<Vec<u32>>, String>,
                fuzzy: Result<Vec<u32>, String>| {
        FuzzyPhraseSet::from_path(
            complete(),
            metadata,
            &scripts,
            words.map(|w| {
                let none: Vec<String> = Vec::new();
                (PrefixSet { id_of: id_of(none.clone()), range_of: range_of(none) }, w)
            }),
            phrases.map(|p| PhraseSet {
                holds: holds(p.clone()),
                holds_prefix: holds_prefix(p.clone()),
                combine: combine(p.clone()),
                combine_prefixes: combine_prefixes(p.clone()),
                combine_windows: combine_windows(p),
            }),
            fuzzy.map(|f| FuzzyMap { find: find(f) }),
        )
    };
    let good = || Ok(FuzzyPhraseSetMetadata::default());
    let gone = |what: &str| what.to_string();
    assert_eq!(
        open(Err(gone("metadata")), Err(gone("words")), Ok(vec![]), Ok(vec![])).err(),
        Some(lost("metadata"))
    );
    assert_eq!(
        open(good(), Err(gone("words")), Err(gone("phrases")), Ok(vec![])).err(),
        Some(lost("words"))
    );
    assert_eq!(
        open(good(), Ok(vec![vec![0xff]]), Err(gone("phrases")), Ok(vec![])).err(),
        Some(OpenError::NotText(0))
    );
    assert_eq!(
        open(good(), Ok(vec![]), Err(gone("phrases")), Err(gone("fuzzy"))).err(),
        Some(lost("phrases"))
    );
    assert_eq!(
        open(good(), Ok(vec![]), Ok(vec![]), Err(gone("fuzzy"))).err(),
        Some(lost("fuzzy"))
    );
    let set = open(good(), Ok(vec!["caf\u{e9}".as_bytes().to_vec()]), Ok(vec![]), Ok(vec![]));
    assert_eq!(set.unwrap().word_list, vec!["caf\u{e9}"]);
}

#[test]
fn metadata_can_be_looked_at_first() {
    let current = FuzzyPhraseSetMetadata::default();
    let read: Result<FuzzyPhraseSetMetadata, String> = Ok(current.clone());
    assert_eq!(expect_current(complete(), read), Ok(current.clone()));
    let mut other = current.clone();
    other.format_version = 2;
    let read: Result<FuzzyPhraseSetMetadata, String> = Ok(other);
    assert_eq!(expect_current(complete(), read), Err(OpenError::UnexpectedMetadata));
    let nothing = Listing { is_there: false, ..complete() };
    assert_eq!(expect_current(nothing, Err(3)), Err(OpenError::NotADirectory));
    assert_eq!(expect_current(complete(), Err(3)), Err(OpenError::Read(3)));
}

#[test]
fn opening_wants_scripts_and_a_pattern() {
    let script_error = |scripts_known: bool, pattern: &'static str| {
        let scripts = ScriptTable {
            by_name: move |name: &str| if scripts_known { Some(name.to_string()) } else { None },
            pattern_for: move |_: &Vec<String>| pattern.to_string(),
        };
        let none: Vec<String> = Vec::new();
        let phrases: Vec<Vec<u32>> = Vec::new();
        FuzzyPhraseSet::from_path(
            complete(),
            Ok(FuzzyPhraseSetMetadata::default()),
            &scripts,
            Ok((PrefixSet { id_of: id_of(none.clone()), range_of: range_of(none) }, vec![])),
            Ok(PhraseSet {
                holds: holds(phrases.clone()),
                holds_prefix: holds_prefix(phrases.clone()),
                combine: combine(phrases.clone()),
                combine_prefixes: combine_prefixes(phrases.clone()),
                combine_windows: combine_windows(phrases),
            }),
            Ok(FuzzyMap { find: find(vec![]) }),
        )
        .err()
    };
    assert_eq!(
        script_error(false, "a"),
        Some(OpenError::Script(ScriptError::UnknownScript))
    );
    assert_eq!(script_error(true, "["), Some(OpenError::Script(ScriptError::BadPattern)));
    assert_eq!(script_error(true, "a"), None);
}

#[test]
fn only_some_scripts_can_be_fuzzy_matched() {
    let set = set_of(&STREETS);
    assert!(set.can_fuzzy_match("main"));
    assert!(set.can_fuzzy_match("\u{3b1}\u{3b2}"));
    assert!(set.can_fuzzy_match("\u{434}\u{430}"));
    assert!(!set.can_fuzzy_match("100"));
    assert!(!set.can_fuzzy_match("main1"));
    assert!(!set.can_fuzzy_match(""));
    // a word that cannot be fuzzy matched has to be exact
    assert_eq!(set.fuzzy_match(&["10", "main", "street"], 1, 3).unwrap(), vec![]);
}

#[test]
fn a_pattern_is_compiled_as_it_is_given() {
    let pattern = ScriptPattern::new("b+").unwrap();
    assert!(pattern.can_fuzzy_match("abba"));
    assert!(!pattern.can_fuzzy_match("aa"));
    assert_eq!(ScriptPattern::new("b(").err(), Some(ScriptError::BadPattern));
}

#[test]
fn what_was_inserted_is_found_in_every_way() {
    let set = set_of(&STREETS);
    for text in STREETS {
        let words: Vec<&str> = text.split(' ').collect();
        assert!(set.contains(&words).unwrap());
        assert!(set.contains_prefix(&words).unwrap());
        assert!(set.fuzzy_match(&words, 1, 2).unwrap().contains(&found(&words, 0)));
        assert!(set.fuzzy_match_prefix(&words, 1, 2).unwrap().contains(&found(&words, 0)));
        assert!(set.fuzzy_match_str(text, 0, 0).unwrap().contains(&found(&words, 0)));
        assert!(set.fuzzy_match_prefix_str(text, 0, 0).unwrap().contains(&found(&words, 0)));
        let mut longer = vec!["the"];
        longer.extend(words.iter());
        longer.push("corner");
        assert!(set
            .fuzzy_match_windows(&longer, 1, 2, false)
            .unwrap()
            .contains(&window(&words, 0, 1, false)));
    }
}

#[test]
fn edits_add_up() {
    let set = set_of(&STREETS);
    assert_eq!(set.fuzzy_match(&["100", "man", "stret"], 1, 1).unwrap(), vec![]);
    assert_eq!(set.fuzzy_match(&["100", "man", "stret"], 0, 2).unwrap(), vec![]);
    assert_eq!(set.fuzzy_match(&["100", "main", "strt"], 2, 2).unwrap(), vec![]);
}

#[test]
fn one_edit_in_a_word_is_the_most() {
    let set = set_of(&STREETS);
    for typed in [["100", "man", "street"], ["100", "man", "strt"]] {
        let one = set.fuzzy_match(&typed, 1, 4).unwrap();
        assert_eq!(set.fuzzy_match(&typed, 2, 4).unwrap(), one);
        assert_eq!(set.fuzzy_match(&typed, 255, 4).unwrap(), one);
        let one = set.fuzzy_match_prefix(&typed, 1, 4).unwrap();
        assert_eq!(set.fuzzy_match_prefix(&typed, 9, 4).unwrap(), one);
    }
}

#[test]
fn a_prefix_stands_as_it_was_typed() {
    let set = set_of(&["main street", "main strand", "main sand"]);
    // one result for the words that start with it, and one for a word that is one edit away
    let matches = set.fuzzy_match_prefix(&["main", "s"], 1, 1).unwrap();
    assert_eq!(matches, vec![found(&["main", "s"], 0)]);
    let matches = set.fuzzy_match_prefix(&["main", "sand"], 1, 1).unwrap();
    assert_eq!(matches, vec![found(&["main", "sand"], 0)]);
    let matches = set.fuzzy_match_prefix(&["main", "strad"], 1, 1).unwrap();
    assert_eq!(matches, vec![found(&["main", "strand"], 1)]);
}

#[test]
fn an_exact_word_is_covered_by_its_prefix() {
    let set = set_of(&["sand", "san"]);
    assert_eq!(
        set.get_terminal_word_possibilities("san", 1).unwrap(),
        Some(vec![
            QueryWord::Prefix { id_range: (0, 1) },
            QueryWord::Full { id: 1, edit_distance: 1 }
        ])
    );
    assert_eq!(
        set.get_nonterminal_word_possibilities("san", 1).unwrap(),
        Some(vec![
            QueryWord::Full { id: 0, edit_distance: 0 },
            QueryWord::Full { id: 1, edit_distance: 1 }
        ])
    );
    assert_eq!(
        set.get_terminal_word_possibilities("sbn", 1).unwrap(),
        Some(vec![QueryWord::Full { id: 0, edit_distance: 1 }])
    );
    assert_eq!(set.get_terminal_word_possibilities("zzz", 1).unwrap(), None);
    assert_eq!(set.get_nonterminal_word_possibilities("zzz", 1).unwrap(), None);
    assert_eq!(set.get_nonterminal_word_possibilities("1", 1).unwrap(), None);
}

#[test]
fn nothing_typed_finds_nothing() {
    let set = set_of(&STREETS);
    let none: [&str; 0] = [];
    assert!(!set.contains(&none).unwrap());
    assert!(set.contains_prefix(&none).unwrap());
    assert_eq!(set.fuzzy_match(&none, 1, 1).unwrap(), vec![]);
    assert_eq!(set.fuzzy_match_prefix(&none, 1, 1).unwrap(), vec![]);
    assert_eq!(set.fuzzy_match_windows(&none, 1, 1, true).unwrap(), vec![]);
    let inputs: [(&[&str], bool); 0] = [];
    assert!(set.fuzzy_match_multi(&inputs, 1, 1).unwrap().is_empty());
    let inputs: [(&[&str], bool); 2] = [(&none, true), (&none, false)];
    assert_eq!(set.fuzzy_match_multi(&inputs, 1, 1).unwrap(), vec![vec![], vec![]]);
}

#[test]
fn missing_words_wall_off_stretches() {
    let set = set_of(&["a b", "b", "c d"]);
    assert_eq!(
        set.fuzzy_match_windows(&["a", "b", "1", "c", "2", "d", "a", "b"], 0, 0, false).unwrap(),
        vec![
            window(&["a", "b"], 0, 0, false),
            window(&["b"], 0, 1, false),
            window(&["a", "b"], 0, 6, false),
            window(&["b"], 0, 7, false),
        ]
    );
    assert_eq!(set.fuzzy_match_windows(&["1", "2"], 0, 0, true).unwrap(), vec![]);
}

#[test]
fn windows_at_the_end_are_marked() {
    let set = set_of(&["aa bb", "bb cc", "cc"]);
    assert_eq!(
        set.fuzzy_match_windows(&["aa"], 0, 0, true).unwrap(),
        vec![window(&["aa"], 0, 0, true)]
    );
    assert_eq!(
        set.fuzzy_match_windows(&["11", "a"], 0, 0, true).unwrap(),
        vec![window(&["a"], 0, 1, true)]
    );
    assert_eq!(
        set.fuzzy_match_windows(&["11", "aa", "c"], 0, 0, false).unwrap(),
        vec![]
    );
    // what was typed stands in place of a prefix, wherever the window starts
    assert_eq!(
        set.fuzzy_match_windows(&["11", "bb", "c"], 0, 0, true).unwrap(),
        vec![window(&["bb", "c"], 0, 1, true), window(&["c"], 0, 2, true)]
    );
    assert_eq!(
        set.fuzzy_match_windows(&["aa", "bb", "c"], 0, 0, true).unwrap(),
        vec![
            window(&["aa", "bb"], 0, 0, false),
            window(&["bb", "c"], 0, 1, true),
            window(&["c"], 0, 2, true),
        ]
    );
    let set = set_of(&STREETS);
    assert_eq!(
        set.fuzzy_match_windows(&["main", "300", "ml"], 0, 0, true).unwrap(),
        vec![window(&["300", "ml"], 0, 1, true)]
    );
}

#[test]
fn many_phrases_are_found_as_each_alone() {
    let set = set_of(&["a", "a b", "a b c", "a bd", "b", "mainly", "main"]);
    let inputs: Vec<(&[&str], bool)> = vec![
        (&["a", "b", "c"], false),
        (&["a", "b"], false),
        (&["a", "b"], true),
        (&["b"], true),
        (&["a"], false),
        (&["a", "b"], false),
        (&["mian"], false),
        (&["main"], true),
        (&["main"], false),
        (&["1"], false),
        (&["a", "1", "b"], false),
        (&[], true),
        (&[], false),
    ];
    let lists = set.fuzzy_match_multi(&inputs, 1, 2).unwrap();
    assert_eq!(lists.len(), inputs.len());
    for (list, (phrase, ends_in_prefix)) in lists.iter().zip(&inputs) {
        let alone = if *ends_in_prefix {
            set.fuzzy_match_prefix(phrase, 1, 2).unwrap()
        } else {
            set.fuzzy_match(phrase, 1, 2).unwrap()
        };
        assert_eq!(list.len(), alone.len());
        for result in &alone {
            assert!(list.contains(result));
        }
    }
    assert!(lists[1].contains(&found(&["a", "b"], 0)));
    assert_eq!(lists[6], vec![]);
    assert_eq!(lists[8], vec![found(&["main"], 0)]);
}

#[test]
fn each_word_is_looked_up_once() {
    let calls = std::cell::RefCell::new(Vec::new());
    let words = vec!["1".to_string(), "2".to_string()];
    let phrases = vec![vec![0, 1]];
    let get = id_of(words.clone());
    let set = FuzzyPhraseSet {
        prefix_set: PrefixSet {
            id_of: |word: &str| {
                calls.borrow_mut().push(word.to_string());
                get(word)
            },
            range_of: range_of(words.clone()),
        },
        phrase_set: PhraseSet {
            holds: holds(phrases.clone()),
            holds_prefix: holds_prefix(phrases.clone()),
            combine: combine(phrases.clone()),
            combine_prefixes: combine_prefixes(phrases.clone()),
            combine_windows: combine_windows(phrases),
        },
        fuzzy_map: FuzzyMap { find: find(vec![]) },
        word_list: words,
        script_regex: ScriptPattern::new("^[a-z]+$").unwrap(),
    };
    let lists = set
        .fuzzy_match_multi(
            &[(&["1", "2"], false), (&["2", "1"], false), (&["1", "2"], true), (&["1"], false)],
            1,
            1,
        )
        .unwrap();
    assert_eq!(
        lists,
        vec![vec![found(&["1", "2"], 0)], vec![], vec![found(&["1", "2"], 0)], vec![]]
    );
    assert_eq!(*calls.borrow(), vec!["1".to_string(), "2".to_string()]);
}

#[test]
fn phrases_that_begin_another_are_searched_with_it() {
    let asked = std::cell::RefCell::new(Vec::new());
    let words = vec!["1".to_string(), "2".to_string()];
    let phrases = vec![vec![0], vec![0, 1]];
    let windows = combine_windows(phrases.clone());
    let set = FuzzyPhraseSet {
        prefix_set: PrefixSet { id_of: id_of(words.clone()), range_of: range_of(words.clone()) },
        phrase_set: PhraseSet {
            holds: holds(phrases.clone()),
            holds_prefix: holds_prefix(phrases.clone()),
            combine: combine(phrases.clone()),
            combine_prefixes: combine_prefixes(phrases),
            combine_windows: |slots: &[Vec<QueryWord>], max: u8, ends_in_prefix: bool| {
                asked.borrow_mut().push((slots.len(), ends_in_prefix));
                windows(slots, max, ends_in_prefix)
            },
        },
        fuzzy_map: FuzzyMap { find: find(vec![]) },
        word_list: words,
        script_regex: ScriptPattern::new("^[a-z]+$").unwrap(),
    };
    let lists = set
        .fuzzy_match_multi(&[(&["1", "2"], true), (&["1"], true), (&["1"], false)], 1, 1)
        .unwrap();
    assert_eq!(
        lists,
        vec![vec![found(&["1", "2"], 0)], vec![found(&["1"], 0)], vec![found(&["1"], 0)]]
    );
    // "1" stands before "1.." and so does not go on, and what is still being typed stands alone
    assert_eq!(*asked.borrow(), vec![(1, false), (1, true), (2, true)]);
    asked.borrow_mut().clear();
    let lists = set.fuzzy_match_multi(&[(&["1", "2"], true), (&["1"], false)], 1, 1).unwrap();
    assert_eq!(lists, vec![vec![found(&["1", "2"], 0)], vec![found(&["1"], 0)]]);
    assert_eq!(*asked.borrow(), vec![(2, true)]);
}

fn sorted(mut results: Vec<FuzzyMatchResult>) -> Vec<FuzzyMatchResult> {
    results.sort_by(|a, b| (&a.phrase, a.edit_distance).cmp(&(&b.phrase, b.edit_distance)));
    results
}

#[test]
fn near_phrases_are_found_once_with_their_distance() {
    let set = set_of(&["main mall", "man mall", "main hall", "100 mall"]);
    assert_eq!(
        sorted(set.fuzzy_match(&["main", "mall"], 1, 2).unwrap()),
        vec![
            found(&["main", "hall"], 1),
            found(&["main", "mall"], 0),
            found(&["man", "mall"], 1),
        ]
    );
    assert_eq!(
        sorted(set.fuzzy_match(&["mai", "tall"], 1, 2).unwrap()),
        vec![
            found(&["main", "hall"], 2),
            found(&["main", "mall"], 2),
            found(&["man", "mall"], 2),
        ]
    );
    assert_eq!(set.fuzzy_match(&["mai", "tall"], 1, 1).unwrap(), vec![]);
    // a word that cannot be fuzzy matched is neither corrected nor a correction
    assert_eq!(set.fuzzy_match(&["101", "mall"], 1, 2).unwrap(), vec![]);
    assert_eq!(set.fuzzy_match(&["100", "hall"], 1, 2).unwrap(), vec![found(&["100", "mall"], 1)]);
}

#[test]
fn near_beginnings_are_found_once_with_their_distance() {
    let set = set_of(&["main mall", "man mallet", "main hall"]);
    assert_eq!(
        sorted(set.fuzzy_match_prefix(&["main", "mall"], 1, 2).unwrap()),
        vec![
            found(&["main", "hall"], 1),
            found(&["main", "mall"], 0),
            found(&["man", "mall"], 1),
        ]
    );
    // the last word is never completed at the cost of an edit
    assert_eq!(set.fuzzy_match_prefix(&["main", "nal"], 1, 2).unwrap(), vec![]);
}

#[test]
fn without_edits_a_search_is_a_lookup() {
    let set = set_of(&STREETS);
    for text in ["100 main street", "100 main", "100 man street", "300 mlk bl", "x", "100 main av"] {
        let words: Vec<&str> = text.split(' ').collect();
        let expected = if set.contains(&words).unwrap() { vec![found(&words, 0)] } else { vec![] };
        assert_eq!(set.fuzzy_match(&words, 0, 3).unwrap(), expected);
        let expected =
            if set.contains_prefix(&words).unwrap() { vec![found(&words, 0)] } else { vec![] };
        assert_eq!(set.fuzzy_match_prefix(&words, 0, 3).unwrap(), expected);
    }
}

#[test]
fn windows_are_found_as_each_part_alone() {
    let set = set_of(&["a", "a b", "b c", "ab", "main mall", "mall", "300 mlk"]);
    let typed = ["a", "b", "c", "300", "mlk", "1", "main", "mal"];
    for ends_in_prefix in [false, true] {
        let windows = set.fuzzy_match_windows(&typed, 1, 2, ends_in_prefix).unwrap();
        for start in 0..typed.len() {
            for end in start + 1..typed.len() + 1 {
                let part = &typed[start..end];
                let at_end = ends_in_prefix && end == typed.len();
                let alone = if at_end {
                    set.fuzzy_match_prefix(part, 1, 2).unwrap()
                } else {
                    set.fuzzy_match(part, 1, 2).unwrap()
                };
                let here: Vec<FuzzyMatchResult> = windows
                    .iter()
                    .filter(|w| w.start_position == start && w.phrase.len() == part.len())
                    .map(|w| {
                        assert_eq!(w.ends_in_prefix, at_end);
                        FuzzyMatchResult {
                            phrase: w.phrase.clone(),
                            edit_distance: w.edit_distance,
                        }
                    })
                    .collect();
                assert_eq!(sorted(here), sorted(alone));
            }
        }
    }
}

#[test]
fn a_phrase_is_found_alike_among_any_others() {
    let set = set_of(&["a", "a b", "a b c", "b", "main"]);
    let inputs: Vec<(&[&str], bool)> =
        vec![(&["a", "b"], false), (&["a"], true), (&["a", "b", "c"], false), (&["mian"], false)];
    let lists = set.fuzzy_match_multi(&inputs, 1, 2).unwrap();
    let turned: Vec<(&[&str], bool)> = inputs.iter().rev().cloned().collect();
    let turned_lists = set.fuzzy_match_multi(&turned, 1, 2).unwrap();
    for (i, input) in inputs.iter().enumerate() {
        assert_eq!(
            sorted(lists[i].clone()),
            sorted(turned_lists[inputs.len() - 1 - i].clone())
        );
        let alone = set.fuzzy_match_multi(&[*input], 1, 2).unwrap();
        assert_eq!(sorted(lists[i].clone()), sorted(alone[0].clone()));
    }
}

#[test]
fn sets_and_plans_decide_alike() {
    let plan = plan_of(&STREETS);
    let set = set_of(&STREETS);
    let other = set_of(&["x"]);
    for (id, word) in plan.words.iter().enumerate() {
        assert_eq!(set.can_fuzzy_match(word), other.can_fuzzy_match(word));
        assert_eq!(plan.fuzzy_ids.contains(&(id as u32)), set.can_fuzzy_match(word));
    }
}

// A set whose phrase graph replies whatever it is told to.
fn told(
    reply: Result<Vec<QueryWord>, String>,
) -> FuzzyPhraseSet<
    impl Fn(&str) -> Option<u64>,
    impl Fn(&str) -> Option<(u64, u64)>,
    impl Fn(&str, u8, &Vec<String>) -> Result<Vec<FuzzyMapLookupResult>, String>,
    impl Fn(&Vec<QueryWord>) -> Result<bool, String>,
    impl Fn(&Vec<QueryWord>) -> Result<bool, String>,
    impl Fn(&Vec<Vec<QueryWord>>, u8) -> Result<Vec<Vec<QueryWord>>, String>,
    impl Fn(&Vec<Vec<QueryWord>>, u8) -> Result<Vec<Vec<QueryWord>>, String>,
    impl Fn(&[Vec<QueryWord>], u8, bool) -> Result<Vec<(Vec<QueryWord>, bool)>, String>,
> {
    let words = vec!["a".to_string()];
    let flag = reply.clone().map(|_| true);
    let other_flag = flag.clone();
    let list = reply.clone().map(|c| vec![c]);
    let other_list = list.clone();
    let windows = reply.map(|c| vec![(c, false)]);
    FuzzyPhraseSet {
        prefix_set: PrefixSet { id_of: id_of(words.clone()), range_of: range_of(words.clone()) },
        phrase_set: PhraseSet {
            holds: move |_: &Vec<QueryWord>| flag.clone(),
            holds_prefix: move |_: &Vec<QueryWord>| other_flag.clone(),
            combine: move |_: &Vec<Vec<QueryWord>>, _: u8| list.clone(),
            combine_prefixes: move |_: &Vec<Vec<QueryWord>>, _: u8| other_list.clone(),
            combine_windows: move |_: &[Vec<QueryWord>], _: u8, _: bool| windows.clone(),
        },
        fuzzy_map: FuzzyMap { find: find(vec![0]) },
        word_list: words,
        script_regex: ScriptPattern::new("^[a-z]+$").unwrap(),
    }
}

#[test]
fn errors_of_the_phrase_graph_come_through() {
    let set = told(Err("broken".to_string()));
    let broken = SearchError::Index("broken".to_string());
    assert_eq!(set.contains(&["a"]), Err("broken".to_string()));
    assert_eq!(set.contains_prefix(&["a"]), Err("broken".to_string()));
    assert_eq!(set.fuzzy_match(&["a"], 1, 1), Err(broken.clone()));
    assert_eq!(set.fuzzy_match_prefix(&["a"], 1, 1), Err(broken.clone()));
    assert_eq!(set.fuzzy_match_windows(&["a"], 1, 1, false), Err(broken.clone()));
    assert_eq!(set.fuzzy_match_multi(&[(&["a"], false)], 1, 1), Err(broken));
    // where a word is missing, the phrase graph is not asked
    assert_eq!(set.contains(&["1"]), Ok(false));
    assert_eq!(set.contains_prefix(&["1"]), Ok(false));
    assert_eq!(set.fuzzy_match(&["1"], 1, 1), Ok(vec![]));
    assert_eq!(set.fuzzy_match_windows(&["1"], 1, 1, false), Ok(vec![]));
}

#[test]
fn combinations_that_cannot_be_written_out_are_refused() {
    let unknown = told(Ok(vec![QueryWord::Full { id: 1, edit_distance: 0 }]));
    assert_eq!(unknown.fuzzy_match(&["a"], 1, 1), Err(SearchError::Unfit));
    assert_eq!(unknown.fuzzy_match_prefix(&["a"], 1, 1), Err(SearchError::Unfit));
    assert_eq!(unknown.fuzzy_match_windows(&["a"], 1, 1, false), Err(SearchError::Unfit));
    assert_eq!(unknown.fuzzy_match_multi(&[(&["a"], false)], 1, 1), Err(SearchError::Unfit));
    let prefix = told(Ok(vec![QueryWord::Prefix { id_range: (0, 0) }]));
    assert_eq!(prefix.fuzzy_match(&["a"], 1, 1), Err(SearchError::Unfit));
    assert_eq!(prefix.fuzzy_match_prefix(&["a"], 1, 1), Ok(vec![found(&["a"], 0)]));
    let far = told(Ok(vec![
        QueryWord::Full { id: 0, edit_distance: 200 },
        QueryWord::Full { id: 0, edit_distance: 56 },
    ]));
    assert_eq!(far.fuzzy_match(&["a", "a"], 1, 255), Err(SearchError::Unfit));
    let near = told(Ok(vec![
        QueryWord::Full { id: 0, edit_distance: 200 },
        QueryWord::Full { id: 0, edit_distance: 55 },
    ]));
    assert_eq!(near.fuzzy_match(&["a", "a"], 1, 255), Ok(vec![found(&["a", "a"], 255)]));
    // a combination that is not asked for is left aside, whatever it is
    assert_eq!(far.fuzzy_match_multi(&[(&["a"], false)], 1, 255), Ok(vec![vec![]]));
}

#[test]
fn errors_of_the_fuzzy_index_come_through() {
    let words = vec!["1".to_string()];
    let phrases = vec![vec![0]];
    let set = FuzzyPhraseSet {
        prefix_set: PrefixSet { id_of: id_of(words.clone()), range_of: range_of(words.clone()) },
        phrase_set: PhraseSet {
            holds: holds(phrases.clone()),
            holds_prefix: holds_prefix(phrases.clone()),
            combine: combine(phrases.clone()),
            combine_prefixes: combine_prefixes(phrases.clone()),
            combine_windows: combine_windows(phrases),
        },
        fuzzy_map: FuzzyMap {
            find: |word: &str, _: u8, _: &Vec<String>| -> Result<
                Vec<FuzzyMapLookupResult>,
                String,
            > { Err(word.to_string()) },
        },
        word_list: words,
        script_regex: ScriptPattern::new("^[a-z]+$").unwrap(),
    };
    let broken = SearchError::Index("x".to_string());
    assert_eq!(set.fuzzy_match(&["1", "x", "y"], 1, 1), Err(broken.clone()));
    assert_eq!(set.fuzzy_match(&["2", "x", "y"], 1, 1), Ok(vec![]));
    assert_eq!(set.fuzzy_match_prefix(&["1", "x"], 1, 1), Err(broken.clone()));
    assert_eq!(set.fuzzy_match_windows(&["1", "2", "x"], 1, 1, true), Err(broken.clone()));
    assert_eq!(
        set.fuzzy_match_multi(&[(&["1"], false), (&["x"], false)], 1, 1),
        Err(broken)
    );
    assert_eq!(set.fuzzy_match(&["1"], 1, 1), Ok(vec![found(&["1"], 0)]));
}
