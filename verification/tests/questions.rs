use voiq_core::questions::{
    collect_candidates, get_field_for_type, get_random_item, make_question_text,
};
use voiq_core::{
    add_word, choose_distractors, generate_mcq, parse_question_type, ErrorKind, Field,
    MCQQuestion, QuestionType, RandomSource, Store,
};

const TYPES: [&str; 12] = [
    "word_to_meaning",
    "meaning_to_word",
    "word_to_synonym",
    "word_to_antonym",
    "synonym_to_word",
    "antonym_to_word",
    "synonym_to_meaning",
    "antonym_to_meaning",
    "meaning_to_synonym",
    "meaning_to_antonym",
    "synonym_to_antonym",
    "antonym_to_synonym",
];

fn corpus() -> Store {
    let mut store = Store::new();
    add_word(&mut store, "happy", "feeling joy", "glad, joyful", "sad, gloomy", "Default").unwrap();
    add_word(&mut store, "big", "of great size", "large, huge", "small, tiny", "Default").unwrap();
    add_word(&mut store, "fast", "moving quickly", "quick, rapid", "slow", "Default").unwrap();
    add_word(&mut store, "hot", "of high temperature", "warm", "cold, chilly", "Default").unwrap();
    add_word(&mut store, "hard", "not easy", "difficult, tough", "easy, simple", "Default")
        .unwrap();
    store
}

fn assert_well_formed(q: &MCQQuestion) {
    assert_eq!(q.options.len(), 4);
    assert!(q.correct_index < 4);
    assert_eq!(q.options[q.correct_index], q.correct_answer);
    for i in 0..4 {
        assert!(!q.options[i].is_empty());
        for j in (i + 1)..4 {
            assert_ne!(q.options[i], q.options[j]);
        }
    }
    let right = q.options.iter().filter(|o| **o == q.correct_answer).count();
    assert_eq!(right, 1);
}

#[test]
fn generate_mcq_gives_four_distinct_options_for_every_type() {
    let store = corpus();
    for seed in 0..20u64 {
        let mut rng = RandomSource::from_seed(seed);
        for t in TYPES {
            for id in 1..=5 {
                let q = generate_mcq(&store, id, t, &mut rng).unwrap();
                assert_well_formed(&q);
                assert_eq!(q.word_id, id);
                assert_eq!(q.question_type, t);
            }
        }
    }
}

#[test]
fn generate_mcq_word_to_meaning_is_about_the_entry() {
    let store = corpus();
    let mut rng = RandomSource::from_seed(3);
    let q = generate_mcq(&store, 2, "word_to_meaning", &mut rng).unwrap();
    assert_eq!(q.question_text, "What is the meaning of 'big'?");
    assert_eq!(q.correct_answer, "of great size");
    let others = ["feeling joy", "moving quickly", "of high temperature", "not easy"];
    for (i, option) in q.options.iter().enumerate() {
        if i != q.correct_index {
            assert!(others.contains(&option.as_str()));
        }
    }
}

#[test]
fn generate_mcq_draws_list_items() {
    let store = corpus();
    for seed in 0..10u64 {
        let mut rng = RandomSource::from_seed(seed);
        let q = generate_mcq(&store, 1, "synonym_to_antonym", &mut rng).unwrap();
        assert!(["sad", "gloomy"].contains(&q.correct_answer.as_str()));
        assert!(
            q.question_text == "Which is an antonym of the word with synonym 'glad'?"
                || q.question_text == "Which is an antonym of the word with synonym 'joyful'?"
        );
        let others = ["small", "tiny", "slow", "cold", "chilly", "easy", "simple"];
        for (i, option) in q.options.iter().enumerate() {
            if i != q.correct_index {
                assert!(others.contains(&option.as_str()));
            }
        }
    }
}

#[test]
fn generate_mcq_puts_the_answer_at_every_place() {
    let store = corpus();
    let mut seen = [false; 4];
    for seed in 0..200u64 {
        let mut rng = RandomSource::from_seed(seed);
        let q = generate_mcq(&store, 1, "word_to_meaning", &mut rng).unwrap();
        seen[q.correct_index] = true;
    }
    assert_eq!(seen, [true; 4]);
}

#[test]
fn generate_mcq_repeats_with_the_same_seed() {
    let store = corpus();
    let mut a = RandomSource::from_seed(11);
    let mut b = RandomSource::from_seed(11);
    let x = generate_mcq(&store, 3, "meaning_to_synonym", &mut a).unwrap();
    let y = generate_mcq(&store, 3, "meaning_to_synonym", &mut b).unwrap();
    assert_eq!(x.options, y.options);
    assert_eq!(x.correct_index, y.correct_index);
    assert_eq!(x.question_text, y.question_text);
}

#[test]
fn generate_mcq_reports_a_missing_word() {
    let store = corpus();
    let mut rng = RandomSource::from_seed(1);
    let e = generate_mcq(&store, 42, "word_to_meaning", &mut rng).unwrap_err();
    assert_eq!(e.kind, ErrorKind::NotFound);
    assert_eq!(e.message(), "Word not found");
    let unknown_too = generate_mcq(&store, 42, "nonsense", &mut rng).unwrap_err();
    assert_eq!(unknown_too.kind, ErrorKind::NotFound);
}

#[test]
fn generate_mcq_needs_four_entries() {
    let mut store = Store::new();
    add_word(&mut store, "a", "1", "", "", "Default").unwrap();
    add_word(&mut store, "b", "2", "", "", "Default").unwrap();
    add_word(&mut store, "c", "3", "", "", "Default").unwrap();
    let mut rng = RandomSource::from_seed(1);
    let e = generate_mcq(&store, 1, "word_to_meaning", &mut rng).unwrap_err();
    assert_eq!(e.kind, ErrorKind::InsufficientData);
    assert_eq!(e.message(), "Not enough words for MCQ generation (need at least 4)");
}

#[test]
fn generate_mcq_refuses_an_unknown_type() {
    let store = corpus();
    let mut rng = RandomSource::from_seed(1);
    for t in ["word_to_word", "Word_To_Meaning", "", "meaning"] {
        let e = generate_mcq(&store, 1, t, &mut rng).unwrap_err();
        assert_eq!(e.kind, ErrorKind::Input);
        assert_eq!(e.message(), format!("Unknown question type: {}", t));
    }
}

#[test]
fn generate_mcq_reports_missing_data() {
    let mut store = corpus();
    let id = add_word(&mut store, "lonely", "without company", " , ,", "", "Default").unwrap();
    let mut rng = RandomSource::from_seed(1);
    for t in ["word_to_synonym", "meaning_to_synonym", "antonym_to_synonym", "word_to_antonym"] {
        let e = generate_mcq(&store, id, t, &mut rng).unwrap_err();
        assert_eq!(e.kind, ErrorKind::MissingData);
        assert_eq!(e.message(), format!("Missing data for question type: {}", t));
    }
    let fine = generate_mcq(&store, id, "synonym_to_word", &mut rng).unwrap();
    assert_eq!(fine.question_text, "Which word has the synonym ''?");
    let blank = add_word(&mut store, "blank", "", "", "", "Default").unwrap();
    let e = generate_mcq(&store, blank, "word_to_meaning", &mut rng).unwrap_err();
    assert_eq!(e.kind, ErrorKind::MissingData);
}

#[test]
fn generate_mcq_needs_three_distinct_wrong_answers() {
    let mut store = Store::new();
    add_word(&mut store, "a", "first", "", "", "Default").unwrap();
    add_word(&mut store, "b", "same", "", "", "Default").unwrap();
    add_word(&mut store, "c", "same", "", "", "Default").unwrap();
    add_word(&mut store, "d", "other", "", "", "Default").unwrap();
    add_word(&mut store, "e", "", "", "", "Default").unwrap();
    add_word(&mut store, "f", "first", "", "", "Default").unwrap();
    let mut rng = RandomSource::from_seed(1);
    let e = generate_mcq(&store, 1, "word_to_meaning", &mut rng).unwrap_err();
    assert_eq!(e.kind, ErrorKind::InsufficientDistractors);
    assert_eq!(e.message(), "Not enough unique distractors for MCQ");
    add_word(&mut store, "g", "third", "", "", "Default").unwrap();
    let q = generate_mcq(&store, 1, "word_to_meaning", &mut rng).unwrap();
    assert_well_formed(&q);
    let mut wrong: Vec<String> =
        q.options.iter().filter(|o| **o != q.correct_answer).cloned().collect();
    wrong.sort();
    assert_eq!(wrong, vec!["other", "same", "third"]);
}

#[test]
fn generate_mcq_cuts_a_long_meaning() {
    let mut store = corpus();
    let long: String = "m".repeat(150);
    let id = add_word(&mut store, "long", &long, "lengthy", "short", "Default").unwrap();
    let mut rng = RandomSource::from_seed(1);
    let q = generate_mcq(&store, id, "meaning_to_word", &mut rng).unwrap();
    assert_eq!(q.question_text, format!("Which word means: '{}'?", "m".repeat(100)));
    let s = generate_mcq(&store, id, "meaning_to_synonym", &mut rng).unwrap();
    assert_eq!(
        s.question_text,
        format!("Which is a synonym of the word meaning: '{}'?", "m".repeat(80))
    );
}

#[test]
fn parse_question_type_knows_the_twelve() {
    for t in TYPES {
        assert!(parse_question_type(t).is_some());
    }
    assert_eq!(parse_question_type("word_to_meaning"), Some(QuestionType::WordToMeaning));
    assert_eq!(parse_question_type("antonym_to_synonym"), Some(QuestionType::AntonymToSynonym));
    assert_eq!(parse_question_type("meaning_to_meaning"), None);
    assert_eq!(parse_question_type("WORD_TO_MEANING"), None);
}

#[test]
fn make_question_text_follows_the_templates() {
    assert_eq!(
        make_question_text(QuestionType::WordToSynonym, "big"),
        "Which is a synonym of 'big'?"
    );
    assert_eq!(
        make_question_text(QuestionType::WordToAntonym, "big"),
        "Which is an antonym of 'big'?"
    );
    assert_eq!(
        make_question_text(QuestionType::SynonymToWord, "large"),
        "Which word has the synonym 'large'?"
    );
    assert_eq!(
        make_question_text(QuestionType::AntonymToWord, "small"),
        "Which word has the antonym 'small'?"
    );
    assert_eq!(
        make_question_text(QuestionType::SynonymToMeaning, "large"),
        "What is the meaning of the word with synonym 'large'?"
    );
    assert_eq!(
        make_question_text(QuestionType::AntonymToMeaning, "small"),
        "What is the meaning of the word with antonym 'small'?"
    );
    assert_eq!(
        make_question_text(QuestionType::MeaningToAntonym, "of great size"),
        "Which is an antonym of the word meaning: 'of great size'?"
    );
    assert_eq!(
        make_question_text(QuestionType::AntonymToSynonym, "small"),
        "Which is a synonym of the word with antonym 'small'?"
    );
}

#[test]
fn get_random_item_draws_from_the_list() {
    let mut rng = RandomSource::from_seed(9);
    let mut seen = std::collections::BTreeSet::new();
    for _ in 0..100 {
        seen.insert(get_random_item(" red , green,, blue ,", &mut rng));
    }
    let got: Vec<String> = seen.into_iter().collect();
    assert_eq!(got, vec!["blue", "green", "red"]);
    assert_eq!(get_random_item("", &mut rng), "");
    assert_eq!(get_random_item(" , ", &mut rng), "");
    assert_eq!(get_random_item("only", &mut rng), "only");
}

#[test]
fn get_field_for_type_reads_the_field() {
    let store = corpus();
    let mut rng = RandomSource::from_seed(9);
    let w = &store.entries()[2];
    assert_eq!(get_field_for_type(w, Field::Word, &mut rng), "fast");
    assert_eq!(get_field_for_type(w, Field::Meaning, &mut rng), "moving quickly");
    assert_eq!(get_field_for_type(w, Field::Antonym, &mut rng), "slow");
    let s = get_field_for_type(w, Field::Synonym, &mut rng);
    assert!(s == "quick" || s == "rapid");
}

#[test]
fn collect_candidates_skips_the_entry_asked_about() {
    let store = corpus();
    let mut rng = RandomSource::from_seed(9);
    let got = collect_candidates(&store, 3, Field::Word, &mut rng);
    assert_eq!(got, vec!["happy", "big", "hot", "hard"]);
}

#[test]
fn choose_distractors_takes_three_usable_values() {
    let mut rng = RandomSource::from_seed(2);
    let candidates: Vec<String> =
        ["a", "", "b", "a", "answer", "c", "d", "b"].iter().map(|s| s.to_string()).collect();
    let mut seen = std::collections::BTreeSet::new();
    for _ in 0..100 {
        let d = choose_distractors(&candidates, "answer", &mut rng).unwrap();
        assert_eq!(d.len(), 3);
        assert!(d[0] != d[1] && d[0] != d[2] && d[1] != d[2]);
        for v in &d {
            assert!(["a", "b", "c", "d"].contains(&v.as_str()));
            seen.insert(v.clone());
        }
    }
    assert_eq!(seen.len(), 4);
    let few: Vec<String> = ["a", "a", "b", "answer", ""].iter().map(|s| s.to_string()).collect();
    let e = choose_distractors(&few, "answer", &mut rng).unwrap_err();
    assert_eq!(e.kind, ErrorKind::InsufficientDistractors);
}

#[test]
fn random_source_stays_below_the_bound() {
    let mut rng = RandomSource::from_seed(4);
    let mut seen = [false; 5];
    for _ in 0..200 {
        let n = rng.below(5);
        assert!(n < 5);
        seen[n] = true;
    }
    assert_eq!(seen, [true; 5]);
    assert_eq!(rng.below(1), 0);
    let mut items: Vec<u32> = (0..50).collect();
    rng.shuffle(&mut items);
    assert_ne!(items, (0..50).collect::<Vec<u32>>());
    items.sort();
    assert_eq!(items, (0..50).collect::<Vec<u32>>());
    assert!(RandomSource::from_system().is_some());
}
