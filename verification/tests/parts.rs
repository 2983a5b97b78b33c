use fuzzy_phrase::metadata::FuzzyPhraseSetMetadata;
use fuzzy_phrase::multi::group_phrases;
use fuzzy_phrase::open::decode_words;
use fuzzy_phrase::order::{reversed, sort};
use fuzzy_phrase::query::{checked_distance, write_out, FuzzyMapLookupResult, QueryWord};
use fuzzy_phrase::search::{cap_word_dist, fuzzy_possibilities, last_possibilities, write_match};
use fuzzy_phrase::text::{same_text, split_words, stand, Standing, Word};
use fuzzy_phrase::windows::split_chunks;

#[test]
fn words_compare_by_code_point() {
    assert_eq!(stand("a", "b"), Standing::Before);
    assert_eq!(stand("ab", "a"), Standing::After);
    assert_eq!(stand("", ""), Standing::Same);
    assert_eq!(stand("Z", "a"), Standing::Before);
    assert_eq!(stand("\u{ffff}", "\u{10000}"), Standing::Before);
    assert!(same_text("caf\u{e9}", "caf\u{e9}"));
    assert!(!same_text("cafe\u{301}", "caf\u{e9}"));
}

#[test]
fn text_is_cut_at_spaces_and_joins_again() {
    for text in ["", " ", "a", "a b", " a  b ", "100 main street", "\u{e9} \u{1f600}"] {
        let pieces = split_words(text);
        assert_eq!(pieces, text.split(' ').collect::<Vec<&str>>());
        assert_eq!(pieces.join(" "), text);
    }
}

#[test]
fn words_are_borrowed_or_owned() {
    assert_eq!("main".as_text(), "main");
    assert_eq!("main".to_string().as_text(), "main");
}

#[test]
fn lists_of_ids_are_sorted_lexicographically() {
    let phrases: Vec<Vec<u32>> = vec![vec![2], vec![1, 5], vec![1], vec![], vec![1, 4, 9], vec![2]];
    assert_eq!(
        sort(phrases),
        vec![vec![], vec![1], vec![1, 4, 9], vec![1, 5], vec![2], vec![2]]
    );
    assert_eq!(sort(Vec::<Vec<u32>>::new()), Vec::<Vec<u32>>::new());
}

#[test]
fn reversing_turns_a_list_round() {
    assert_eq!(reversed(vec![1, 2, 3]), vec![3, 2, 1]);
    assert_eq!(reversed(Vec::<u8>::new()), Vec::<u8>::new());
}

#[test]
fn bytes_are_decoded_as_utf8() {
    assert_eq!(
        decode_words(vec![b"main".to_vec(), vec![0xc3, 0xa9], vec![]]),
        Ok(vec!["main".to_string(), "\u{e9}".to_string(), String::new()])
    );
    assert_eq!(decode_words(vec![b"main".to_vec(), vec![0xc3], vec![0xff]]), Err(1));
    assert_eq!(decode_words(vec![vec![0xed, 0xa0, 0x80]]), Err(0));
}

#[test]
fn metadata_are_compared_by_all_their_parts() {
    let current = FuzzyPhraseSetMetadata::default();
    assert_eq!(current.index_type, "fuzzy_phrase_set");
    assert_eq!(current.format_version, 1);
    assert_eq!(current.fuzzy_enabled_scripts, vec!["Latin", "Greek", "Cyrillic"]);
    assert!(current.same(&FuzzyPhraseSetMetadata::default()));
    let mut other = current.clone();
    other.fuzzy_enabled_scripts.pop();
    assert!(!current.same(&other));
}

#[test]
fn edits_are_capped_at_one() {
    assert_eq!(cap_word_dist(0), 0);
    assert_eq!(cap_word_dist(1), 1);
    assert_eq!(cap_word_dist(2), 1);
    assert_eq!(cap_word_dist(255), 1);
}

#[test]
fn query_words_are_made_of_ids() {
    assert_eq!(QueryWord::new_full(7, 1), QueryWord::Full { id: 7, edit_distance: 1 });
    assert_eq!(QueryWord::new_prefix((3, 9)), QueryWord::Prefix { id_range: (3, 9) });
}

#[test]
fn hits_become_query_words() {
    let exact = FuzzyMapLookupResult { id: 4, edit_distance: 0 };
    let near = FuzzyMapLookupResult { id: 5, edit_distance: 1 };
    let full = |hit: &FuzzyMapLookupResult| QueryWord::new_full(hit.id, hit.edit_distance);
    assert_eq!(fuzzy_possibilities::<()>(Ok(vec![])), Ok(None));
    assert_eq!(
        fuzzy_possibilities::<()>(Ok(vec![near, exact])),
        Ok(Some(vec![full(&near), full(&exact)]))
    );
    assert_eq!(fuzzy_possibilities(Err(3)), Err(3));
    assert_eq!(last_possibilities::<()>(None, Ok(vec![])), Ok(None));
    assert_eq!(
        last_possibilities::<()>(None, Ok(vec![near, exact])),
        Ok(Some(vec![full(&near), full(&exact)]))
    );
    assert_eq!(
        last_possibilities::<()>(Some((4, 6)), Ok(vec![near, exact])),
        Ok(Some(vec![QueryWord::new_prefix((4, 6)), full(&near)]))
    );
    assert_eq!(
        last_possibilities::<()>(Some((1 << 32, (1 << 32) + 2)), Ok(vec![])),
        Ok(Some(vec![QueryWord::new_prefix((0, 2))]))
    );
    assert_eq!(last_possibilities(Some((4, 6)), Err(3)), Err(3));
}

#[test]
fn combinations_are_written_out() {
    let words = vec!["ave".to_string(), "main".to_string()];
    let typed = ["man", "av"];
    let c = vec![QueryWord::new_full(1, 1), QueryWord::new_prefix((0, 0))];
    assert_eq!(checked_distance(2, 2, 0, &c), Some(1));
    assert_eq!(write_out(&words, &typed, 0, &c), vec!["main", "av"]);
    assert_eq!(checked_distance(1, 2, 0, &c), None);
    assert_eq!(checked_distance(2, 1, 0, &c), None);
    assert_eq!(checked_distance(2, 2, 1, &c), None);
    assert_eq!(checked_distance(2, 2, usize::MAX, &c), None);
    let result = write_match(&words, &typed, &c).unwrap();
    assert_eq!(result.phrase, vec!["main", "av"]);
    assert_eq!(result.edit_distance, 1);
}

#[test]
fn stretches_lie_between_missing_words() {
    let word = |id: u32| Some(vec![QueryWord::new_full(id, 0)]);
    let chunks = split_chunks(vec![None, word(1), word(2), None, None, word(5)], true);
    assert_eq!(chunks.len(), 2);
    assert_eq!(chunks[0].start_position, 1);
    assert_eq!(chunks[0].word_possibilities.len(), 2);
    assert!(!chunks[0].ends_in_prefix);
    assert_eq!(chunks[1].start_position, 5);
    assert_eq!(chunks[1].word_possibilities, vec![vec![QueryWord::new_full(5, 0)]]);
    assert!(chunks[1].ends_in_prefix);
    assert!(split_chunks(vec![None, None], true).is_empty());
    assert!(!split_chunks(vec![word(1)], false)[0].ends_in_prefix);
    assert!(!split_chunks(vec![word(1), None], true)[0].ends_in_prefix);
}

#[test]
fn phrases_that_go_on_share_a_group() {
    let inputs: Vec<(&[&str], bool)> = vec![
        (&["a", "b", "c"], false),
        (&["b"], false),
        (&["a"], false),
        (&["a", "b"], true),
        (&["a", "b"], false),
        (&["a", "b"], false),
    ];
    // sorted: a | a b | a b | a b.. | a b c | b
    assert_eq!(
        group_phrases(&inputs),
        vec![vec![2, 4], vec![5], vec![3], vec![0], vec![1]]
    );
    let strings = vec!["x".to_string()];
    assert_eq!(group_phrases(&[(strings.as_slice(), true)]), vec![vec![0]]);
}
