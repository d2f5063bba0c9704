use voiq_core::db::{parse_order, Order};
use voiq_core::{
    add_word, delete_category, get_all_words, get_categories, get_word_by_id, get_words,
    load_vocabulary, save_attempt, Attempt, ErrorKind, RandomSource, Store, Word,
};

fn sample() -> Store {
    let mut store = Store::new();
    add_word(&mut store, "banana", "a yellow fruit", "plantain", "", "Food").unwrap();
    add_word(&mut store, "Apple", "a round fruit", "pome", "", "Food").unwrap();
    add_word(&mut store, "brisk", "quick and lively", "quick, lively", "slow, sluggish", "Traits")
        .unwrap();
    add_word(&mut store, "calm", "not excited", "serene", "agitated", "Traits").unwrap();
    add_word(&mut store, "Bold", "showing courage", "brave", "timid", "Default").unwrap();
    store
}

fn names(words: &[Word]) -> Vec<String> {
    words.iter().map(|w| w.word.clone()).collect()
}

fn plain(word: &str) -> Word {
    Word {
        id: 0,
        word: word.to_string(),
        meaning: format!("meaning of {}", word),
        synonyms: String::new(),
        antonyms: String::new(),
        category: "ignored".to_string(),
    }
}

#[test]
fn add_word_gives_rising_ids() {
    let mut store = Store::new();
    let a = add_word(&mut store, "one", "1", "", "", "Default").unwrap();
    let b = add_word(&mut store, "two", "2", "", "", "Default").unwrap();
    assert_eq!(a, 1);
    assert_eq!(b, 2);
    assert_eq!(store.word_count(), 2);
    assert_eq!(store.entries()[1].word, "two");
    assert_eq!(store.entries()[1].meaning, "2");
    assert_eq!(store.entries()[1].category, "Default");
}

#[test]
fn get_word_by_id_finds_the_entry_or_nothing() {
    let store = sample();
    let found = get_word_by_id(&store, 3).unwrap();
    assert_eq!(found.id, 3);
    assert_eq!(found.word, "brisk");
    assert_eq!(found.antonyms, "slow, sluggish");
    assert!(get_word_by_id(&store, 99).is_none());
    assert!(get_word_by_id(&store, 0).is_none());
}

#[test]
fn from_row_fills_in_what_is_missing() {
    let w = Word::from_row(7, "w".to_string(), "m".to_string(), None, None, None);
    assert_eq!(w.id, 7);
    assert_eq!(w.synonyms, "");
    assert_eq!(w.antonyms, "");
    assert_eq!(w.category, "Default");
    let v = Word::from_row(
        8,
        "w".to_string(),
        "m".to_string(),
        Some("s".to_string()),
        Some("a".to_string()),
        Some("Verbs".to_string()),
    );
    assert_eq!(v.synonyms, "s");
    assert_eq!(v.antonyms, "a");
    assert_eq!(v.category, "Verbs");
}

#[test]
fn get_words_orders_by_word() {
    let store = sample();
    let mut rng = RandomSource::from_seed(1);
    let up = get_words(&store, "a_to_z", None, None, &mut rng).unwrap();
    assert_eq!(names(&up), vec!["Apple", "Bold", "banana", "brisk", "calm"]);
    let down = get_words(&store, "z_to_a", None, None, &mut rng).unwrap();
    assert_eq!(names(&down), vec!["calm", "brisk", "banana", "Bold", "Apple"]);
}

#[test]
fn get_words_takes_tokens_in_any_case_and_falls_back() {
    let store = sample();
    let mut rng = RandomSource::from_seed(1);
    let down = get_words(&store, "Z_TO_A", None, None, &mut rng).unwrap();
    assert_eq!(names(&down)[0], "calm");
    let other = get_words(&store, "sideways", None, None, &mut rng).unwrap();
    assert_eq!(names(&other), vec!["Apple", "Bold", "banana", "brisk", "calm"]);
    assert_eq!(parse_order("random"), Order::Random);
    assert_eq!(parse_order("RANDOM"), Order::Random);
    assert_eq!(parse_order("a_to_z"), Order::AToZ);
    assert_eq!(parse_order(""), Order::AToZ);
    assert_eq!(parse_order("z_to_a"), Order::ZToA);
}

#[test]
fn get_words_random_keeps_every_entry() {
    let store = sample();
    let mut rng = RandomSource::from_seed(42);
    let mixed = get_words(&store, "random", None, None, &mut rng).unwrap();
    let mut got = names(&mixed);
    got.sort();
    assert_eq!(got, vec!["Apple", "Bold", "banana", "brisk", "calm"]);
    let all = get_all_words(&store, &mut rng);
    let mut ids: Vec<i64> = all.iter().map(|w| w.id).collect();
    ids.sort();
    assert_eq!(ids, vec![1, 2, 3, 4, 5]);
}

#[test]
fn get_words_filters_by_category_in_every_order() {
    let store = sample();
    let mut rng = RandomSource::from_seed(5);
    for order in ["a_to_z", "z_to_a", "random", "unknown"] {
        let got = get_words(&store, order, None, Some(vec!["Traits".to_string()]), &mut rng)
            .unwrap();
        assert_eq!(got.len(), 2);
        assert!(got.iter().all(|w| w.category == "Traits"));
    }
    let none = get_words(&store, "a_to_z", None, Some(vec!["traits".to_string()]), &mut rng)
        .unwrap();
    assert!(none.is_empty());
    let two = get_words(
        &store,
        "a_to_z",
        None,
        Some(vec!["Food".to_string(), "Default".to_string()]),
        &mut rng,
    )
    .unwrap();
    assert_eq!(names(&two), vec!["Apple", "Bold", "banana"]);
}

#[test]
fn get_words_with_no_category_named_does_not_filter() {
    let store = sample();
    let mut rng = RandomSource::from_seed(5);
    let got = get_words(&store, "a_to_z", None, Some(Vec::new()), &mut rng).unwrap();
    assert_eq!(got.len(), 5);
}

#[test]
fn get_words_filters_by_first_letter_in_either_case() {
    let store = sample();
    let mut rng = RandomSource::from_seed(5);
    let lower = get_words(&store, "a_to_z", Some('b'), None, &mut rng).unwrap();
    assert_eq!(names(&lower), vec!["Bold", "banana", "brisk"]);
    let upper = get_words(&store, "a_to_z", Some('B'), None, &mut rng).unwrap();
    assert_eq!(names(&upper), vec!["Bold", "banana", "brisk"]);
    let both = get_words(&store, "a_to_z", Some('b'), Some(vec!["Traits".to_string()]), &mut rng)
        .unwrap();
    assert_eq!(names(&both), vec!["brisk"]);
    let wildcard = get_words(&store, "a_to_z", Some('%'), None, &mut rng).unwrap();
    assert!(wildcard.is_empty());
}

#[test]
fn get_words_refuses_control_characters() {
    let store = sample();
    let mut rng = RandomSource::from_seed(5);
    let bad_letter = get_words(&store, "a_to_z", Some('\u{7}'), None, &mut rng).unwrap_err();
    assert_eq!(bad_letter.kind, ErrorKind::Input);
    assert!(!bad_letter.message().is_empty());
    let bad_name = get_words(&store, "a_to_z", None, Some(vec!["Fo\nod".to_string()]), &mut rng)
        .unwrap_err();
    assert_eq!(bad_name.kind, ErrorKind::Input);
    let quote = get_words(&store, "a_to_z", None, Some(vec!["O'Neil".to_string()]), &mut rng);
    assert!(quote.unwrap().is_empty());
}

#[test]
fn get_categories_counts_by_name_ascending() {
    let store = sample();
    let cats = get_categories(&store);
    let got: Vec<(String, i64)> = cats.iter().map(|c| (c.name.clone(), c.word_count)).collect();
    assert_eq!(
        got,
        vec![("Default".to_string(), 1), ("Food".to_string(), 2), ("Traits".to_string(), 2)]
    );
    assert!(get_categories(&Store::new()).is_empty());
}

#[test]
fn load_vocabulary_adds_under_the_category() {
    let mut store = sample();
    let n = load_vocabulary(&mut store, vec![plain("delta"), plain("echo")], "Radio").unwrap();
    assert_eq!(n, 2);
    assert_eq!(store.word_count(), 7);
    let delta = get_word_by_id(&store, 6).unwrap();
    assert_eq!(delta.word, "delta");
    assert_eq!(delta.meaning, "meaning of delta");
    assert_eq!(delta.category, "Radio");
    assert_eq!(get_word_by_id(&store, 7).unwrap().word, "echo");
    assert_eq!(get_word_by_id(&store, 1).unwrap().word, "banana");
}

#[test]
fn delete_category_removes_words_and_their_attempts() {
    let mut store = sample();
    save_attempt(&mut store, 1, "mcq", "word_to_meaning", false, "x", "y", None).unwrap();
    save_attempt(&mut store, 3, "mcq", "word_to_meaning", false, "x", "y", Some(900)).unwrap();
    save_attempt(&mut store, 2, "mcq", "word_to_meaning", true, "y", "y", None).unwrap();
    save_attempt(&mut store, 77, "mcq", "word_to_meaning", true, "y", "y", None).unwrap();
    let deleted = delete_category(&mut store, "Food");
    assert_eq!(deleted, 2);
    let left: Vec<i64> = store.entries().iter().map(|w| w.id).collect();
    assert_eq!(left, vec![3, 4, 5]);
    let log: Vec<i64> = store.attempts().iter().map(|a| a.word_id).collect();
    assert_eq!(log, vec![3, 77]);
    let next = add_word(&mut store, "new", "n", "", "", "Food").unwrap();
    assert_eq!(next, 6);
}

#[test]
fn delete_category_that_is_not_there_changes_nothing() {
    let mut store = sample();
    save_attempt(&mut store, 1, "mcq", "word_to_meaning", false, "x", "y", None).unwrap();
    let deleted = delete_category(&mut store, "X");
    assert_eq!(deleted, 0);
    assert_eq!(store.word_count(), 5);
    assert_eq!(store.attempts().len(), 1);
    let same_case_only = delete_category(&mut store, "food");
    assert_eq!(same_case_only, 0);
}

#[test]
fn restore_takes_rows_by_identifier() {
    let rows = vec![
        Word::from_row(2, "a".to_string(), "b".to_string(), None, None, None),
        Word::from_row(9, "c".to_string(), "d".to_string(), None, None, None),
    ];
    let log = vec![Attempt {
        id: 4,
        word_id: 2,
        mode: "mcq".to_string(),
        question_type: "word_to_meaning".to_string(),
        is_correct: true,
        user_answer: "b".to_string(),
        expected_answer: "b".to_string(),
        time_taken_ms: None,
        timestamp: None,
    }];
    let mut store = Store::restore(rows, log).unwrap();
    assert_eq!(store.word_count(), 2);
    assert_eq!(add_word(&mut store, "e", "f", "", "", "Default").unwrap(), 10);
    save_attempt(&mut store, 2, "mcq", "word_to_meaning", true, "b", "b", None).unwrap();
    assert_eq!(store.attempts()[1].id, 5);
}

#[test]
fn restore_refuses_rows_out_of_order() {
    let rows = vec![
        Word::from_row(3, "a".to_string(), "b".to_string(), None, None, None),
        Word::from_row(3, "c".to_string(), "d".to_string(), None, None, None),
    ];
    let e = Store::restore(rows, Vec::new()).unwrap_err();
    assert_eq!(e.kind, ErrorKind::Storage);
    let zero = vec![Word::from_row(0, "a".to_string(), "b".to_string(), None, None, None)];
    assert!(Store::restore(zero, Vec::new()).is_err());
    let last = vec![Word::from_row(i64::MAX, "a".to_string(), "b".to_string(), None, None, None)];
    assert!(Store::restore(last, Vec::new()).is_err());
}

#[test]
fn a_full_store_takes_no_more() {
    let rows =
        vec![Word::from_row(i64::MAX - 1, "a".to_string(), "b".to_string(), None, None, None)];
    let mut store = Store::restore(rows, Vec::new()).unwrap();
    let e = add_word(&mut store, "c", "d", "", "", "Default").unwrap_err();
    assert_eq!(e.kind, ErrorKind::Storage);
    assert_eq!(store.word_count(), 1);
    let l = load_vocabulary(&mut store, vec![plain("x")], "Default").unwrap_err();
    assert_eq!(l.kind, ErrorKind::Storage);
    assert_eq!(load_vocabulary(&mut store, Vec::new(), "Default").unwrap(), 0);
}

#[test]
fn restore_after_never_gives_an_identifier_twice() {
    let rows = vec![Word::from_row(2, "a".to_string(), "b".to_string(), None, None, None)];
    let mut store = Store::restore_after(rows, Vec::new(), 7, 3).unwrap();
    assert_eq!(add_word(&mut store, "c", "d", "", "", "Default").unwrap(), 8);
    save_attempt(&mut store, 2, "mcq", "word_to_meaning", true, "b", "b", None).unwrap();
    assert_eq!(store.attempts()[0].id, 4);
    let rows = vec![Word::from_row(9, "a".to_string(), "b".to_string(), None, None, None)];
    let mut behind = Store::restore_after(rows, Vec::new(), 7, 0).unwrap();
    assert_eq!(add_word(&mut behind, "c", "d", "", "", "Default").unwrap(), 10);
    let mut empty = Store::restore_after(Vec::new(), Vec::new(), 0, 0).unwrap();
    assert_eq!(add_word(&mut empty, "c", "d", "", "", "Default").unwrap(), 1);
}

#[test]
fn restore_after_refuses_identifiers_out_of_range() {
    for (w, a) in [(-1, 0), (0, -1), (i64::MAX, 0), (0, i64::MAX)] {
        let e = Store::restore_after(Vec::new(), Vec::new(), w, a).unwrap_err();
        assert_eq!(e.kind, ErrorKind::Storage);
        assert_eq!(e.message(), "The identifiers given before are out of range");
    }
    let mut full = Store::restore_after(Vec::new(), Vec::new(), i64::MAX - 1, 0).unwrap();
    let e = add_word(&mut full, "c", "d", "", "", "Default").unwrap_err();
    assert_eq!(e.kind, ErrorKind::Storage);
}
