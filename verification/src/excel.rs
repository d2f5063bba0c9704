//! Import of vocabulary tables: a header row that names the columns, and
//! one entry per row below it.

use crate::db::{
    load_vocabulary, loaded_into, models, Store, StoreModel, Word, WordModel,
};
use crate::error::{CoreError, ErrorKind};
use crate::text::{
    chars_eq_ignore_case, chars_of, lowercase, lowercase_of, same_ignoring_case, same_text,
    signed_decimal, signed_decimal_string, texts, trim, trim_bounds, trimmed,
};
use vstd::prelude::*;
use vstd::string::*;

verus! {

/// Where the columns of a table are.
#[derive(Clone, Copy, Debug, PartialEq, Eq, Structural)]
pub struct ColumnMapping {
    pub word: usize,
    pub meaning: Option<usize>,
    pub synonyms: Option<usize>,
    pub antonyms: Option<usize>,
}

/// What a column holds, going by its header.
#[derive(Clone, Copy, Debug, PartialEq, Eq, Structural)]
pub enum Role {
    Word,
    Meaning,
    Synonyms,
    Antonyms,
    Other,
}

/// The role that a header gives its column. White space around the
/// header and the case of its letters do not count.
pub open spec fn role_of(header: Seq<char>) -> Role {
    let t = trimmed(header);
    if same_ignoring_case(t, "word"@) || same_ignoring_case(t, "words"@) || same_ignoring_case(
        t,
        "vocabulary"@,
    ) {
        Role::Word
    } else if same_ignoring_case(t, "meaning"@) || same_ignoring_case(t, "meanings"@)
        || same_ignoring_case(t, "definition"@) || same_ignoring_case(t, "definitions"@) {
        Role::Meaning
    } else if same_ignoring_case(t, "synonym"@) || same_ignoring_case(t, "synonyms"@) {
        Role::Synonyms
    } else if same_ignoring_case(t, "antonym"@) || same_ignoring_case(t, "antonyms"@) {
        Role::Antonyms
    } else {
        Role::Other
    }
}

/// The role that a header gives its column.
pub fn header_role(header: &str) -> (r: Role)
    ensures
        r == role_of(header@),
{
    let v = chars_of(header);
    let (a, b) = trim_bounds(&v, 0, v.len());
    assert(v@.subrange(0, v.len() as int) =~= v@);
    if chars_eq_ignore_case(&v, a, b, "word") || chars_eq_ignore_case(&v, a, b, "words")
        || chars_eq_ignore_case(&v, a, b, "vocabulary") {
        Role::Word
    } else if chars_eq_ignore_case(&v, a, b, "meaning") || chars_eq_ignore_case(
        &v,
        a,
        b,
        "meanings",
    ) || chars_eq_ignore_case(&v, a, b, "definition") || chars_eq_ignore_case(
        &v,
        a,
        b,
        "definitions",
    ) {
        Role::Meaning
    } else if chars_eq_ignore_case(&v, a, b, "synonym") || chars_eq_ignore_case(
        &v,
        a,
        b,
        "synonyms",
    ) {
        Role::Synonyms
    } else if chars_eq_ignore_case(&v, a, b, "antonym") || chars_eq_ignore_case(
        &v,
        a,
        b,
        "antonyms",
    ) {
        Role::Antonyms
    } else {
        Role::Other
    }
}

/// The last column with the given role, if there is one.
pub open spec fn last_with_role(headers: Seq<Seq<char>>, role: Role) -> Option<usize>
    decreases headers.len(),
{
    if headers.len() == 0 {
        None
    } else if role_of(headers.last()) == role {
        Some((headers.len() - 1) as usize)
    } else {
        last_with_role(headers.drop_last(), role)
    }
}

/// The columns that a header row names: where two columns have one role,
/// the later one. A row without a word column names none, and so does a
/// row with no other column.
pub open spec fn columns_of(headers: Seq<Seq<char>>) -> Option<ColumnMapping> {
    let word = last_with_role(headers, Role::Word);
    let meaning = last_with_role(headers, Role::Meaning);
    let synonyms = last_with_role(headers, Role::Synonyms);
    let antonyms = last_with_role(headers, Role::Antonyms);
    if word is None || (meaning is None && synonyms is None && antonyms is None) {
        None
    } else {
        Some(ColumnMapping { word: word->0, meaning, synonyms, antonyms })
    }
}

/// What is said of a header row that does not name the columns.
pub open spec fn column_fault(headers: Seq<Seq<char>>) -> Seq<char> {
    if last_with_role(headers, Role::Word) is None {
        "Missing required 'Word' column in file header"@
    } else {
        "At least one additional column required (Meaning, Synonyms, or Antonyms)"@
    }
}

/// Finds the columns of a table from its header row.
pub fn detect_columns(headers: &Vec<String>) -> (r: Result<ColumnMapping, CoreError>)
    ensures
        match r {
            Ok(m) => columns_of(texts(headers@)) == Some(m),
            Err(e) => {
                &&& columns_of(texts(headers@)) is None
                &&& e.kind == ErrorKind::Input
                &&& e.message@ == column_fault(texts(headers@))
            },
        },
{
    let ghost all = texts(headers@);
    let mut word: Option<usize> = None;
    let mut meaning: Option<usize> = None;
    let mut synonyms: Option<usize> = None;
    let mut antonyms: Option<usize> = None;
    let mut i: usize = 0;
    while i < headers.len()
        invariant
            i <= headers.len(),
            all == texts(headers@),
            word == last_with_role(all.take(i as int), Role::Word),
            meaning == last_with_role(all.take(i as int), Role::Meaning),
            synonyms == last_with_role(all.take(i as int), Role::Synonyms),
            antonyms == last_with_role(all.take(i as int), Role::Antonyms),
        decreases headers.len() - i,
    {
        proof {
            assert(all.take(i + 1).drop_last() =~= all.take(i as int));
            assert(all.take(i + 1).last() == headers@[i as int]@);
        }
        match header_role(headers[i].as_str()) {
            Role::Word => {
                word = Some(i);
            },
            Role::Meaning => {
                meaning = Some(i);
            },
            Role::Synonyms => {
                synonyms = Some(i);
            },
            Role::Antonyms => {
                antonyms = Some(i);
            },
            Role::Other => {},
        }
        i += 1;
    }
    assert(all.take(i as int) =~= all);
    match word {
        None => Err(
            CoreError::new(ErrorKind::Input, "Missing required 'Word' column in file header"),
        ),
        Some(w) => {
            if meaning.is_none() && synonyms.is_none() && antonyms.is_none() {
                Err(
                    CoreError::new(
                        ErrorKind::Input,
                        "At least one additional column required (Meaning, Synonyms, or Antonyms)",
                    ),
                )
            } else {
                Ok(ColumnMapping { word: w, meaning, synonyms, antonyms })
            }
        },
    }
}

/// What the rows of a table hold, cell by cell.
pub open spec fn grid(rows: Seq<Vec<String>>) -> Seq<Seq<Seq<char>>> {
    Seq::new(rows.len(), |i: int| texts(rows[i]@))
}

/// The cell of a row in a column; empty where the row is too short or
/// the table has no such column.
pub open spec fn cell_at(row: Seq<Seq<char>>, column: Option<usize>) -> Seq<char> {
    match column {
        Some(i) => if i < row.len() {
            row[i as int]
        } else {
            Seq::empty()
        },
        None => Seq::empty(),
    }
}

/// The entry that a row holds, before it has an identifier and a
/// category.
pub open spec fn row_entry(m: ColumnMapping, row: Seq<Seq<char>>) -> WordModel {
    WordModel {
        id: 0,
        word: cell_at(row, Some(m.word)),
        meaning: cell_at(row, m.meaning),
        synonyms: cell_at(row, m.synonyms),
        antonyms: cell_at(row, m.antonyms),
        category: Seq::empty(),
    }
}

/// Whether what a row holds makes an entry: a word, and a meaning, a
/// synonym or an antonym with it.
pub open spec fn is_entry(e: WordModel) -> bool {
    e.word.len() > 0 && (e.meaning.len() > 0 || e.synonyms.len() > 0 || e.antonyms.len() > 0)
}

/// The entries of the rows, in their order; a row without a word has
/// none, and neither has a row with a word and nothing else.
pub open spec fn extracted(m: ColumnMapping, rows: Seq<Seq<Seq<char>>>) -> Seq<WordModel>
    decreases rows.len(),
{
    if rows.len() == 0 {
        Seq::empty()
    } else {
        let rest = extracted(m, rows.drop_last());
        let entry = row_entry(m, rows.last());
        if is_entry(entry) {
            rest.push(entry)
        } else {
            rest
        }
    }
}

/// Every entry that comes out of a table has a word, and a meaning, a
/// synonym or an antonym with it.
pub proof fn lemma_extracted_entries(m: ColumnMapping, rows: Seq<Seq<Seq<char>>>, i: int)
    requires
        0 <= i < extracted(m, rows).len(),
    ensures
        is_entry(extracted(m, rows)[i]),
    decreases rows.len(),
{
    if rows.len() > 0 {
        let rest = extracted(m, rows.drop_last());
        if i < rest.len() {
            lemma_extracted_entries(m, rows.drop_last(), i);
        }
    }
}

fn cell_of(row: &Vec<String>, column: Option<usize>) -> (r: String)
    ensures
        r@ == cell_at(texts(row@), column),
{
    match column {
        Some(i) => {
            if i < row.len() {
                row[i].clone()
            } else {
                String::new()
            }
        },
        None => String::new(),
    }
}

/// The entries of the rows from `first` on: one for each row that holds
/// a word and something to go with it.
pub fn extract_words(m: &ColumnMapping, rows: &Vec<Vec<String>>, first: usize) -> (out: Vec<Word>)
    requires
        first <= rows@.len(),
    ensures
        models(out@) == extracted(*m, grid(rows@).skip(first as int)),
{
    let mut out: Vec<Word> = Vec::new();
    let ghost g = grid(rows@);
    let mut i: usize = first;
    proof {
        assert(g.subrange(first as int, first as int) =~= Seq::<Seq<Seq<char>>>::empty());
        assert(models(out@) =~= Seq::<WordModel>::empty());
    }
    while i < rows.len()
        invariant
            first <= i <= rows.len(),
            g == grid(rows@),
            models(out@) == extracted(*m, g.subrange(first as int, i as int)),
        decreases rows.len() - i,
    {
        let row = &rows[i];
        let ghost before = models(out@);
        proof {
            assert(g.subrange(first as int, i + 1).drop_last() =~= g.subrange(
                first as int,
                i as int,
            ));
            assert(g.subrange(first as int, i + 1).last() == texts(row@));
        }
        let word = cell_of(row, Some(m.word));
        let meaning = cell_of(row, m.meaning);
        let synonyms = cell_of(row, m.synonyms);
        let antonyms = cell_of(row, m.antonyms);
        if word.as_str().unicode_len() > 0 && (meaning.as_str().unicode_len() > 0
            || synonyms.as_str().unicode_len() > 0 || antonyms.as_str().unicode_len() > 0) {
            let entry = Word { id: 0, word, meaning, synonyms, antonyms, category: String::new() };
            out.push(entry);
            assert(models(out@) =~= before.push(row_entry(*m, texts(row@))));
        }
        i += 1;
    }
    assert(g.subrange(first as int, i as int) =~= g.skip(first as int));
    out
}

/// The header row of a table; empty where the table has no row.
pub open spec fn header_of(table: Seq<Seq<Seq<char>>>) -> Seq<Seq<char>> {
    if table.len() > 0 {
        table[0]
    } else {
        Seq::empty()
    }
}

/// Whether `r`, `before` and `after` are the outcome and the two states
/// of an import of the table: a table whose header row does not name the
/// columns is refused, and so is one with more entries than the store has
/// identifiers left; else every entry of the rows below the header is
/// added under the category.
pub open spec fn table_import(
    r: Result<usize, CoreError>,
    before: StoreModel,
    after: StoreModel,
    table: Seq<Seq<Seq<char>>>,
    category: Seq<char>,
) -> bool {
    match columns_of(header_of(table)) {
        None => r matches Err(e) && e.kind == ErrorKind::Input && e.message@ == column_fault(
            header_of(table),
        ) && after == before,
        Some(m) => {
            let entries = extracted(m, table.skip(1));
            if before.next_word_id + entries.len() > i64::MAX {
                r matches Err(e) && e.kind == ErrorKind::Storage && e.message@
                    == "The store has too few identifiers left"@ && after == before
            } else {
                r == Ok::<usize, CoreError>(entries.len() as usize) && loaded_into(
                    before,
                    after,
                    entries,
                    category,
                )
            }
        },
    }
}

/// Imports a table whose first row is the header row.
pub fn import_table(table: &Vec<Vec<String>>, store: &mut Store, category: &str) -> (r: Result<
    usize,
    CoreError,
>)
    requires
        old(store).wf(),
    ensures
        final(store).wf(),
        table_import(r, old(store)@, final(store)@, grid(table@), category@),
{
    let empty: Vec<String> = Vec::new();
    let headers = if table.len() > 0 {
        &table[0]
    } else {
        &empty
    };
    assert(texts(headers@) =~= header_of(grid(table@)));
    let mapping = match detect_columns(headers) {
        Ok(m) => m,
        Err(e) => {
            return Err(e);
        },
    };
    let words = extract_words(&mapping, table, 1);
    load_vocabulary(store, words, category)
}

/// A cell of a spreadsheet.
#[derive(Debug)]
pub enum Cell {
    Text(String),
    Int(i64),
    /// A number with a fraction, as it is written.
    Float(String),
    Bool(bool),
    /// A date and time, as it is written.
    DateTime(String),
    DateTimeIso(String),
    DurationIso(String),
    Error,
    Empty,
}

/// What a cell reads as: a text trimmed, a number or a truth value as
/// it is written, a faulty or empty cell as nothing.
pub open spec fn cell_text(cell: Cell) -> Seq<char> {
    match cell {
        Cell::Text(s) => trimmed(s@),
        Cell::Int(n) => signed_decimal(n as int),
        Cell::Float(s) => s@,
        Cell::Bool(b) => if b {
            "true"@
        } else {
            "false"@
        },
        Cell::DateTime(s) => s@,
        Cell::DateTimeIso(s) => s@,
        Cell::DurationIso(s) => s@,
        Cell::Error => Seq::empty(),
        Cell::Empty => Seq::empty(),
    }
}

/// What a cell reads as.
pub fn get_cell_string(cell: &Cell) -> (r: String)
    ensures
        r@ == cell_text(*cell),
{
    match cell {
        Cell::Text(s) => String::from_str(trim(s.as_str())),
        Cell::Int(n) => signed_decimal_string(*n),
        Cell::Float(s) => s.clone(),
        Cell::Bool(b) => {
            if *b {
                String::from_str("true")
            } else {
                String::from_str("false")
            }
        },
        Cell::DateTime(s) => s.clone(),
        Cell::DateTimeIso(s) => s.clone(),
        Cell::DurationIso(s) => s.clone(),
        Cell::Error => String::new(),
        Cell::Empty => String::new(),
    }
}

/// What the cells of a sheet read as.
pub open spec fn sheet_grid(sheet: Seq<Vec<Cell>>) -> Seq<Seq<Seq<char>>> {
    Seq::new(sheet.len(), |i: int| Seq::new(sheet[i]@.len(), |j: int| cell_text(sheet[i]@[j])))
}

fn read_sheet(sheet: &Vec<Vec<Cell>>) -> (table: Vec<Vec<String>>)
    ensures
        grid(table@) == sheet_grid(sheet@),
{
    let mut table: Vec<Vec<String>> = Vec::new();
    let mut i: usize = 0;
    while i < sheet.len()
        invariant
            i <= sheet.len(),
            table@.len() == i,
            forall|k: int|
                0 <= k < i ==> texts((#[trigger] table@[k])@) == sheet_grid(sheet@)[k],
        decreases sheet.len() - i,
    {
        let cells = &sheet[i];
        let mut row: Vec<String> = Vec::new();
        let mut j: usize = 0;
        while j < cells.len()
            invariant
                j <= cells.len(),
                row@.len() == j,
                forall|k: int| 0 <= k < j ==> (#[trigger] row@[k])@ == cell_text(cells@[k]),
            decreases cells.len() - j,
        {
            row.push(get_cell_string(&cells[j]));
            j += 1;
        }
        assert(texts(row@) =~= sheet_grid(sheet@)[i as int]);
        table.push(row);
        i += 1;
    }
    assert(grid(table@) =~= sheet_grid(sheet@));
    table
}

/// Imports the first sheet of a workbook, given as its rows of cells.
/// A sheet without a row is refused; the first row is the header row.
pub fn parse_excel(sheet: &Vec<Vec<Cell>>, store: &mut Store, category: &str) -> (r: Result<
    usize,
    CoreError,
>)
    requires
        old(store).wf(),
    ensures
        final(store).wf(),
        sheet@.len() == 0 ==> (r matches Err(e) && e.kind == ErrorKind::Input && e.message@
            == "Empty file - no header row"@ && final(store)@ == old(store)@),
        sheet@.len() > 0 ==> table_import(
            r,
            old(store)@,
            final(store)@,
            sheet_grid(sheet@),
            category@,
        ),
{
    if sheet.len() == 0 {
        return Err(CoreError::new(ErrorKind::Input, "Empty file - no header row"));
    }
    let table = read_sheet(sheet);
    import_table(&table, store, category)
}

/// `csv::Error`, the fault that takes the place of a record that cannot
/// be read. The proofs see nothing inside it.
#[verifier::external_type_specification]
#[verifier::external_body]
pub struct ExCsvError(csv::Error);

/// What `csv` reads from the bytes of a file, record by record: the fields
/// of a record, or nothing for a record that cannot be read.
pub uninterp spec fn csv_reading(data: Seq<u8>) -> Seq<Option<Seq<Seq<char>>>>;

/// What records hold, one for one: the fields of a record that was read,
/// nothing for a fault.
pub open spec fn record_views(records: Seq<Result<Vec<String>, csv::Error>>) -> Seq<
    Option<Seq<Seq<char>>>,
> {
    Seq::new(
        records.len(),
        |i: int|
            match records[i] {
                Ok(fields) => Some(texts(fields@)),
                Err(_) => None,
            },
    )
}

/// The records that `csv::Reader::records` yields for the bytes, each as
/// its fields or as the fault that took its place; read with any number
/// of fields to the record and with no record held back as a header. The
/// contract only names the result.
#[verifier::external_body]
fn read_records(data: &[u8]) -> (r: Vec<Result<Vec<String>, csv::Error>>)
    ensures
        record_views(r@) == csv_reading(data@),
{
    let mut reader = csv::ReaderBuilder::new().has_headers(false).flexible(true).from_reader(data);
    reader.records().map(|record| record.map(|f| f.iter().map(String::from).collect())).collect()
}

/// `csv::Error`'s `Display`: what a fault says of itself. Nothing is
/// claimed of the text.
#[verifier::external_body]
fn fault_text(fault: &csv::Error) -> String {
    fault.to_string()
}

/// The position of the first fault among the records, or their number
/// where there is none.
pub open spec fn first_fault(records: Seq<Option<Seq<Seq<char>>>>) -> int
    decreases records.len(),
{
    if records.len() == 0 || records[0] is None {
        0
    } else {
        1 + first_fault(records.drop_first())
    }
}

/// The records before the first fault.
pub open spec fn sound_records(records: Seq<Option<Seq<Seq<char>>>>) -> Seq<Seq<Seq<char>>> {
    Seq::new(first_fault(records) as nat, |i: int| records[i]->0)
}

/// Whether there is a fault among the records.
pub open spec fn has_fault(records: Seq<Option<Seq<Seq<char>>>>) -> bool {
    first_fault(records) < records.len()
}

proof fn lemma_first_fault(records: Seq<Option<Seq<Seq<char>>>>, k: int)
    requires
        0 <= k <= records.len(),
        forall|j: int| 0 <= j < k ==> (#[trigger] records[j]) is Some,
        k < records.len() ==> records[k] is None,
    ensures
        first_fault(records) == k,
    decreases k,
{
    if k > 0 {
        let rest = records.drop_first();
        assert forall|j: int| 0 <= j < k - 1 implies (#[trigger] rest[j]) is Some by {
            assert(rest[j] == records[j + 1]);
        }
        lemma_first_fault(rest, k - 1);
    }
}

fn copy_fields(fields: &Vec<String>) -> (out: Vec<String>)
    ensures
        texts(out@) == texts(fields@),
{
    let mut out: Vec<String> = Vec::new();
    let mut i: usize = 0;
    while i < fields.len()
        invariant
            i <= fields.len(),
            out@.len() == i,
            forall|k: int| 0 <= k < i ==> (#[trigger] out@[k])@ == fields@[k]@,
        decreases fields.len() - i,
    {
        out.push(fields[i].clone());
        i += 1;
    }
    assert(texts(out@) =~= texts(fields@));
    out
}

/// The records before the first fault, and what that fault says of
/// itself, where there is one.
fn split_at_fault(records: &Vec<Result<Vec<String>, csv::Error>>) -> (r: (
    Vec<Vec<String>>,
    Option<String>,
))
    ensures
        grid(r.0@) == sound_records(record_views(records@)),
        r.1 is Some == has_fault(record_views(records@)),
{
    let ghost views = record_views(records@);
    let mut rows: Vec<Vec<String>> = Vec::new();
    let mut i: usize = 0;
    let mut fault: Option<String> = None;
    while i < records.len() && fault.is_none()
        invariant
            i <= records.len(),
            views == record_views(records@),
            rows@.len() == i,
            forall|k: int| 0 <= k < i ==> (#[trigger] views[k]) is Some,
            forall|k: int| 0 <= k < i ==> texts((#[trigger] rows@[k])@) == views[k]->0,
            fault is Some ==> i < records.len() && views[i as int] is None,
        decreases records.len() - i + (if fault is Some { 0int } else { 1int }),
    {
        match &records[i] {
            Ok(fields) => {
                rows.push(copy_fields(fields));
                i += 1;
            },
            Err(found) => {
                fault = Some(fault_text(found));
            },
        }
    }
    proof {
        lemma_first_fault(views, i as int);
        assert(grid(rows@) =~= sound_records(views));
    }
    (rows, fault)
}

/// A table with every cell trimmed.
pub open spec fn trimmed_grid(g: Seq<Seq<Seq<char>>>) -> Seq<Seq<Seq<char>>> {
    Seq::new(g.len(), |i: int| Seq::new(g[i].len(), |j: int| trimmed(g[i][j])))
}

fn trim_rows(rows: &Vec<Vec<String>>) -> (table: Vec<Vec<String>>)
    ensures
        grid(table@) == trimmed_grid(grid(rows@)),
{
    let mut table: Vec<Vec<String>> = Vec::new();
    let mut i: usize = 0;
    while i < rows.len()
        invariant
            i <= rows.len(),
            table@.len() == i,
            forall|k: int|
                0 <= k < i ==> texts((#[trigger] table@[k])@) == trimmed_grid(grid(rows@))[k],
        decreases rows.len() - i,
    {
        let cells = &rows[i];
        let mut row: Vec<String> = Vec::new();
        let mut j: usize = 0;
        while j < cells.len()
            invariant
                j <= cells.len(),
                row@.len() == j,
                forall|k: int| 0 <= k < j ==> (#[trigger] row@[k])@ == trimmed(cells@[k]@),
            decreases cells.len() - j,
        {
            row.push(String::from_str(trim(cells[j].as_str())));
            j += 1;
        }
        assert(texts(row@) =~= trimmed_grid(grid(rows@))[i as int]);
        table.push(row);
        i += 1;
    }
    assert(grid(table@) =~= trimmed_grid(grid(rows@)));
    table
}

/// Whether `r`, `before` and `after` are the outcome and the two states
/// of an import of CSV records, of which the reading may have stopped at
/// a fault; `fault` is what the fault says of itself. The cells are
/// trimmed. A fault before the first record is reported as such, with
/// its text; a header row that does not name the columns is refused
/// next; then a fault in a later record is reported, with its text; else
/// the records are imported as a table.
pub open spec fn csv_import(
    r: Result<usize, CoreError>,
    before: StoreModel,
    after: StoreModel,
    records: Seq<Seq<Seq<char>>>,
    fault: Option<Seq<char>>,
    category: Seq<char>,
) -> bool {
    let table = trimmed_grid(records);
    match fault {
        Some(text) => if records.len() == 0 {
            r matches Err(e) && e.kind == ErrorKind::Input && e.message@
                == "Failed to read CSV headers: "@ + text && after == before
        } else if columns_of(header_of(table)) is Some {
            r matches Err(e) && e.kind == ErrorKind::Input && e.message@
                == "Failed to read CSV row: "@ + text && after == before
        } else {
            table_import(r, before, after, table, category)
        },
        None => table_import(r, before, after, table, category),
    }
}

/// What a fault says of itself, where there is one.
pub open spec fn fault_view(fault: Option<&str>) -> Option<Seq<char>> {
    match fault {
        Some(text) => Some(text@),
        None => None,
    }
}

/// Imports CSV records that were read up to a fault, or to the end;
/// `fault` is what the fault says of itself.
pub fn import_csv_records(
    records: &Vec<Vec<String>>,
    fault: Option<&str>,
    store: &mut Store,
    category: &str,
) -> (r: Result<usize, CoreError>)
    requires
        old(store).wf(),
    ensures
        final(store).wf(),
        csv_import(r, old(store)@, final(store)@, grid(records@), fault_view(fault), category@),
{
    let text = match fault {
        Some(text) => text,
        None => {
            let table = trim_rows(records);
            return import_table(&table, store, category);
        },
    };
    if records.len() == 0 {
        return Err(CoreError::with_detail(ErrorKind::Input, "Failed to read CSV headers: ", text));
    }
    let table = trim_rows(records);
    assert(table@.len() == records@.len()) by {
        assert(grid(table@).len() == table@.len());
        assert(trimmed_grid(grid(records@)).len() == records@.len());
    }
    let headers = &table[0];
    assert(texts(headers@) =~= header_of(grid(table@)));
    match detect_columns(headers) {
        Ok(_) => Err(CoreError::with_detail(ErrorKind::Input, "Failed to read CSV row: ", text)),
        Err(e) => Err(e),
    }
}

/// The fault of a reading: the given text where the reading has a fault.
pub open spec fn fault_of(failed: bool, text: Seq<char>) -> Option<Seq<char>> {
    if failed {
        Some(text)
    } else {
        None
    }
}

/// Imports a CSV file, given as its bytes: the first record is the
/// header row. A fault in the reading is reported with what the reader
/// says of it.
pub fn parse_csv(data: &[u8], store: &mut Store, category: &str) -> (r: Result<usize, CoreError>)
    requires
        old(store).wf(),
    ensures
        final(store).wf(),
        exists|text: Seq<char>|
            csv_import(
                r,
                old(store)@,
                final(store)@,
                sound_records(csv_reading(data@)),
                #[trigger] fault_of(has_fault(csv_reading(data@)), text),
                category@,
            ),
{
    let records = read_records(data);
    let (rows, fault) = split_at_fault(&records);
    let ghost before = store@;
    let ghost failed = has_fault(csv_reading(data@));
    match &fault {
        Some(text) => {
            let r = import_csv_records(&rows, Some(text.as_str()), store, category);
            assert(csv_import(r, before, store@, grid(rows@), fault_of(failed, text@), category@));
            r
        },
        None => {
            let r = import_csv_records(&rows, None, store, category);
            assert(csv_import(
                r,
                before,
                store@,
                grid(rows@),
                fault_of(failed, Seq::<char>::empty()),
                category@,
            ));
            r
        },
    }
}

/// The kind of file that an import reads.
#[derive(Clone, Copy, Debug, PartialEq, Eq, Structural)]
pub enum FileFormat {
    Excel,
    Csv,
}

/// The format that goes with a file extension in lower case.
pub open spec fn format_of(extension: Seq<char>) -> Option<FileFormat> {
    if extension == "xlsx"@ || extension == "xls"@ {
        Some(FileFormat::Excel)
    } else if extension == "csv"@ {
        Some(FileFormat::Csv)
    } else {
        None
    }
}

/// The format that goes with a file extension in lower case; any other
/// extension is refused.
pub fn format_for_extension(extension: &str) -> (r: Result<FileFormat, CoreError>)
    ensures
        match r {
            Ok(format) => format_of(extension@) == Some(format),
            Err(e) => {
                &&& format_of(extension@) is None
                &&& e.kind == ErrorKind::Input
                &&& e.message@ == "Unsupported file format: ."@ + extension@
            },
        },
{
    if same_text(extension, "xlsx") || same_text(extension, "xls") {
        Ok(FileFormat::Excel)
    } else if same_text(extension, "csv") {
        Ok(FileFormat::Csv)
    } else {
        Err(CoreError::with_detail(ErrorKind::Input, "Unsupported file format: .", extension))
    }
}

/// `std::path::Path::extension`: the part of the file name after its last
/// dot, if it has one. What counts as the file name differs from one
/// system to another, so nothing is claimed of the result.
#[verifier::external_body]
fn path_extension(path: &str) -> Option<String> {
    match std::path::Path::new(path).extension() {
        Some(found) => Some(found.to_string_lossy().into_owned()),
        None => None,
    }
}

/// Whether `r` is the outcome for a file with the given extension, which
/// is put in lower case first.
pub open spec fn format_outcome(r: Result<FileFormat, CoreError>, extension: Seq<char>) -> bool {
    match r {
        Ok(format) => format_of(lowercase_of(extension)) == Some(format),
        Err(e) => {
            &&& format_of(lowercase_of(extension)) is None
            &&& e.kind == ErrorKind::Input
            &&& e.message@ == "Unsupported file format: ."@ + lowercase_of(extension)
        },
    }
}

/// The format of the file at a path, going by the extension that the
/// system finds in the path, whatever the case of its letters; a path
/// without an extension is taken as one with an empty extension.
pub fn file_format(path: &str) -> (r: Result<FileFormat, CoreError>)
    ensures
        exists|extension: Seq<char>| format_outcome(r, extension),
{
    let found = match path_extension(path) {
        Some(e) => e,
        None => String::new(),
    };
    let lowered = lowercase(found.as_str());
    let r = format_for_extension(lowered.as_str());
    assert(format_outcome(r, found@));
    r
}

} // verus!
