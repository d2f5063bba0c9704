use voiq_core::excel::{extract_words, header_role, Role};
use voiq_core::{
    detect_columns, file_format, format_for_extension, get_cell_string, import_csv_records,
    import_table, parse_csv, parse_excel, Cell, ColumnMapping, ErrorKind, FileFormat, Store,
};

fn strings(items: &[&str]) -> Vec<String> {
    items.iter().map(|s| s.to_string()).collect()
}

#[test]
fn header_role_reads_the_synonym_sets() {
    for h in ["word", "Words", " VOCABULARY "] {
        assert_eq!(header_role(h), Role::Word);
    }
    for h in ["meaning", "Meanings", "definition", "DEFINITIONS"] {
        assert_eq!(header_role(h), Role::Meaning);
    }
    for h in ["synonym", "Synonyms\t"] {
        assert_eq!(header_role(h), Role::Synonyms);
    }
    for h in ["antonym", "ANTONYMS"] {
        assert_eq!(header_role(h), Role::Antonyms);
    }
    for h in ["", "wordy", "the word", "notes", "syn onym"] {
        assert_eq!(header_role(h), Role::Other);
    }
}

#[test]
fn detect_columns_finds_each_role() {
    let m = detect_columns(&strings(&["No", "Word", "Notes", "Antonyms", "Meaning", "Synonym"]))
        .unwrap();
    assert_eq!(
        m,
        ColumnMapping { word: 1, meaning: Some(4), synonyms: Some(5), antonyms: Some(3) }
    );
    let two = detect_columns(&strings(&["definition", "vocabulary"])).unwrap();
    assert_eq!(two, ColumnMapping { word: 1, meaning: Some(0), synonyms: None, antonyms: None });
    let twice = detect_columns(&strings(&["word", "meaning", "words", "meanings"])).unwrap();
    assert_eq!(twice.word, 2);
    assert_eq!(twice.meaning, Some(3));
}

#[test]
fn detect_columns_wants_a_word_column_and_one_more() {
    let none = detect_columns(&strings(&["meaning", "synonyms"])).unwrap_err();
    assert_eq!(none.kind, ErrorKind::Input);
    assert_eq!(none.message(), "Missing required 'Word' column in file header");
    let alone = detect_columns(&strings(&["word", "notes"])).unwrap_err();
    assert_eq!(alone.kind, ErrorKind::Input);
    assert_eq!(
        alone.message(),
        "At least one additional column required (Meaning, Synonyms, or Antonyms)"
    );
    let empty = detect_columns(&Vec::new()).unwrap_err();
    assert_eq!(empty.message(), "Missing required 'Word' column in file header");
}

#[test]
fn extract_words_skips_rows_without_a_word() {
    let m = ColumnMapping { word: 0, meaning: Some(1), synonyms: None, antonyms: Some(3) };
    let rows = vec![
        strings(&["word", "meaning", "x", "antonyms"]),
        strings(&["up", "toward the sky", "x", "down"]),
        strings(&["", "nothing", "x", "y"]),
        strings(&["left"]),
        strings(&["alone", "", "not a column", ""]),
        strings(&["right", "", "x", "wrong"]),
        Vec::new(),
    ];
    let words = extract_words(&m, &rows, 1);
    assert_eq!(words.len(), 2);
    assert_eq!(words[0].id, 0);
    assert_eq!(words[0].word, "up");
    assert_eq!(words[0].meaning, "toward the sky");
    assert_eq!(words[0].synonyms, "");
    assert_eq!(words[0].antonyms, "down");
    assert_eq!(words[0].category, "");
    assert_eq!(words[1].word, "right");
    assert_eq!(words[1].meaning, "");
    assert_eq!(words[1].antonyms, "wrong");
    assert_eq!(extract_words(&m, &rows, 7).len(), 0);
}

#[test]
fn import_table_skips_a_row_with_a_word_and_nothing_else() {
    let mut store = Store::new();
    let table = vec![
        strings(&["Word", "Meaning", "Synonyms", "Antonyms"]),
        strings(&["bare", "", "", ""]),
        strings(&["short"]),
        strings(&["near", "", "close", ""]),
        strings(&["far", "", "", "near"]),
    ];
    assert_eq!(import_table(&table, &mut store, "Places").unwrap(), 2);
    let words = store.entries();
    assert_eq!(words[0].word, "near");
    assert_eq!(words[0].synonyms, "close");
    assert_eq!(words[1].word, "far");
    assert_eq!(words[1].antonyms, "near");
    let only = vec![strings(&["word", "meaning"]), strings(&["bare", "  "])];
    assert_eq!(import_csv_records(&only, None, &mut store, "Places").unwrap(), 0);
    assert_eq!(store.word_count(), 2);
}

#[test]
fn import_table_loads_under_the_category() {
    let mut store = Store::new();
    let table = vec![
        strings(&["Meaning", "Word"]),
        strings(&["a fruit", "pear"]),
        strings(&["a tree", "oak"]),
    ];
    assert_eq!(import_table(&table, &mut store, "Nature").unwrap(), 2);
    assert_eq!(import_table(&table, &mut store, "Again").unwrap(), 2);
    assert_eq!(store.word_count(), 4);
    let w = &store.entries()[1];
    assert_eq!(
        (w.id, w.word.as_str(), w.meaning.as_str(), w.category.as_str()),
        (2, "oak", "a tree", "Nature")
    );
    assert_eq!(store.entries()[2].category, "Again");
    let e = import_table(&Vec::new(), &mut store, "Nature").unwrap_err();
    assert_eq!(e.kind, ErrorKind::Input);
    assert_eq!(store.word_count(), 4);
}

#[test]
fn parse_csv_reads_a_file() {
    let mut store = Store::new();
    let data = b"Word, Meaning ,Synonyms\n happy ,\"glad, in a word\",  joyful\n\nlone\n\
,no word,here\nbig,large,\"huge, vast\",extra\n";
    let n = parse_csv(data, &mut store, "Basics").unwrap();
    assert_eq!(n, 2);
    let words = store.entries();
    assert_eq!(words[0].word, "happy");
    assert_eq!(words[0].meaning, "glad, in a word");
    assert_eq!(words[0].synonyms, "joyful");
    assert_eq!(words[0].antonyms, "");
    assert_eq!(words[0].category, "Basics");
    assert_eq!(words[1].word, "big");
    assert_eq!(words[1].meaning, "large");
    assert_eq!(words[1].synonyms, "huge, vast");
}

#[test]
fn parse_csv_refuses_a_file_without_the_columns() {
    let mut store = Store::new();
    let e = parse_csv(b"term,meaning\na,b\n", &mut store, "X").unwrap_err();
    assert_eq!(e.kind, ErrorKind::Input);
    assert_eq!(e.message(), "Missing required 'Word' column in file header");
    let empty = parse_csv(b"", &mut store, "X").unwrap_err();
    assert_eq!(empty.message(), "Missing required 'Word' column in file header");
    assert_eq!(store.word_count(), 0);
}

#[test]
fn parse_csv_reports_a_fault_in_a_row() {
    let mut store = Store::new();
    let e = parse_csv(b"word,meaning\nok,fine\n\xff\xfe,bad\n", &mut store, "X").unwrap_err();
    assert_eq!(e.kind, ErrorKind::Input);
    assert!(e.message().starts_with("Failed to read CSV row: "));
    assert!(e.message().contains("invalid UTF-8"));
    assert!(e.message().contains("line 3"));
    assert_eq!(store.word_count(), 0);
    let head = parse_csv(b"\xff\xfe,meaning\nok,fine\n", &mut store, "X").unwrap_err();
    assert!(head.message().starts_with("Failed to read CSV headers: "));
    assert!(head.message().contains("invalid UTF-8"));
}

#[test]
fn import_csv_records_goes_by_the_header_first() {
    let mut store = Store::new();
    let records = vec![strings(&["term", "meaning"]), strings(&["a", "b"])];
    let e = import_csv_records(&records, Some("torn"), &mut store, "X").unwrap_err();
    assert_eq!(e.message(), "Missing required 'Word' column in file header");
    let good = vec![strings(&[" word ", "meaning"]), strings(&[" a ", " b "])];
    let f = import_csv_records(&good, Some("torn"), &mut store, "X").unwrap_err();
    assert_eq!(f.message(), "Failed to read CSV row: torn");
    let h = import_csv_records(&Vec::new(), Some("torn"), &mut store, "X").unwrap_err();
    assert_eq!(h.message(), "Failed to read CSV headers: torn");
    assert_eq!(store.word_count(), 0);
    assert_eq!(import_csv_records(&good, None, &mut store, "X").unwrap(), 1);
    assert_eq!(store.entries()[0].word, "a");
    assert_eq!(store.entries()[0].meaning, "b");
}

#[test]
fn get_cell_string_reads_each_kind_of_cell() {
    assert_eq!(get_cell_string(&Cell::Text("  spaced out ".to_string())), "spaced out");
    assert_eq!(get_cell_string(&Cell::Int(0)), "0");
    assert_eq!(get_cell_string(&Cell::Int(1905)), "1905");
    assert_eq!(get_cell_string(&Cell::Int(-42)), "-42");
    assert_eq!(get_cell_string(&Cell::Int(i64::MIN)), "-9223372036854775808");
    assert_eq!(get_cell_string(&Cell::Int(i64::MAX)), "9223372036854775807");
    assert_eq!(get_cell_string(&Cell::Float("2.5".to_string())), "2.5");
    assert_eq!(get_cell_string(&Cell::Bool(true)), "true");
    assert_eq!(get_cell_string(&Cell::Bool(false)), "false");
    assert_eq!(get_cell_string(&Cell::DateTime("45000".to_string())), "45000");
    let stamp = "2024-01-02T03:04:05";
    assert_eq!(get_cell_string(&Cell::DateTimeIso(stamp.to_string())), stamp);
    assert_eq!(get_cell_string(&Cell::DurationIso("PT1H".to_string())), "PT1H");
    assert_eq!(get_cell_string(&Cell::Error), "");
    assert_eq!(get_cell_string(&Cell::Empty), "");
}

#[test]
fn parse_excel_reads_a_sheet() {
    let mut store = Store::new();
    let sheet = vec![
        vec![
            Cell::Text("Word".to_string()),
            Cell::Text("Meaning".to_string()),
            Cell::Text("Antonyms".to_string()),
        ],
        vec![Cell::Text(" one ".to_string()), Cell::Int(1), Cell::Empty],
        vec![Cell::Empty, Cell::Text("no word".to_string())],
        vec![Cell::Bool(true), Cell::Float("1.5".to_string()), Cell::Text("false".to_string())],
    ];
    assert_eq!(parse_excel(&sheet, &mut store, "Sheet").unwrap(), 2);
    let words = store.entries();
    assert_eq!(words[0].word, "one");
    assert_eq!(words[0].meaning, "1");
    assert_eq!(words[0].antonyms, "");
    assert_eq!(words[1].word, "true");
    assert_eq!(words[1].meaning, "1.5");
    assert_eq!(words[1].antonyms, "false");
    assert_eq!(words[1].category, "Sheet");
    let e = parse_excel(&Vec::new(), &mut store, "Sheet").unwrap_err();
    assert_eq!(e.kind, ErrorKind::Input);
    assert_eq!(e.message(), "Empty file - no header row");
}

#[test]
fn file_format_goes_by_the_extension() {
    assert_eq!(file_format("words.xlsx").unwrap(), FileFormat::Excel);
    assert_eq!(file_format("/tmp/in.put/WORDS.XLS").unwrap(), FileFormat::Excel);
    assert_eq!(file_format("list.Csv").unwrap(), FileFormat::Csv);
    let e = file_format("notes.TXT").unwrap_err();
    assert_eq!(e.kind, ErrorKind::Input);
    assert_eq!(e.message(), "Unsupported file format: .txt");
    assert_eq!(file_format("csv").unwrap_err().message(), "Unsupported file format: .");
    assert_eq!(file_format(".csv").unwrap_err().message(), "Unsupported file format: .");
    assert_eq!(format_for_extension("csv").unwrap(), FileFormat::Csv);
    assert_eq!(format_for_extension("CSV").unwrap_err().message(), "Unsupported file format: .CSV");
}
