//! Data and quiz core of a vocabulary trainer: a store of vocabulary entries
//! and answer attempts, a generator of four-option questions, a grader for
//! free-text answers and the statistics drawn from the attempt log.

pub mod db;
pub mod error;
pub mod excel;
pub mod fuzzy;
pub mod progress;
pub mod questions;
pub mod random;
pub mod text;

pub use db::{
    add_word, delete_category, get_all_words, get_categories, get_word_by_id, get_words,
    load_vocabulary, Attempt, CategoryInfo, Order, Store, StoreModel, Word, WordModel,
};
pub use error::{CoreError, ErrorKind};
pub use excel::{
    detect_columns, file_format, format_for_extension, get_cell_string, import_csv_records,
    import_table, parse_csv, parse_excel, Cell, ColumnMapping, FileFormat,
};
pub use fuzzy::{check_match, grade, millionths_of, MatchResult, DEFAULT_THRESHOLD};
pub use progress::{get_failed_words, get_stats, save_attempt, AttemptStats, SCALE};
pub use questions::{
    choose_distractors, generate_mcq, parse_question_type, Field, MCQQuestion, QuestionType,
};
pub use random::RandomSource;
