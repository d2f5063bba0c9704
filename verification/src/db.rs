//! The vocabulary store: entries grouped into categories, and the log of
//! answer attempts that the analytics read.

use crate::error::{CoreError, ErrorKind};
use crate::random::RandomSource;
use crate::text::{
    char_is_control, chars_of, eq_ignore_case, fold_ascii, fold_char, has_control, is_control,
    lemma_text_le_antisymmetric, lemma_text_le_total, lemma_text_le_transitive,
    same_ignoring_case, same_text, str_has_control, str_le, text_le,
};
use vstd::prelude::*;
use vstd::string::*;

verus! {

/// A vocabulary entry.
#[derive(Debug)]
pub struct Word {
    pub id: i64,
    pub word: String,
    pub meaning: String,
    /// Comma-delimited; may be empty.
    pub synonyms: String,
    /// Comma-delimited; may be empty.
    pub antonyms: String,
    pub category: String,
}

/// What a vocabulary entry holds.
pub struct WordModel {
    pub id: int,
    pub word: Seq<char>,
    pub meaning: Seq<char>,
    pub synonyms: Seq<char>,
    pub antonyms: Seq<char>,
    pub category: Seq<char>,
}

impl View for Word {
    type V = WordModel;

    open spec fn view(&self) -> WordModel {
        WordModel {
            id: self.id as int,
            word: self.word@,
            meaning: self.meaning@,
            synonyms: self.synonyms@,
            antonyms: self.antonyms@,
            category: self.category@,
        }
    }
}

impl Clone for Word {
    fn clone(&self) -> (r: Self)
        ensures
            r == *self,
    {
        Word {
            id: self.id,
            word: self.word.clone(),
            meaning: self.meaning.clone(),
            synonyms: self.synonyms.clone(),
            antonyms: self.antonyms.clone(),
            category: self.category.clone(),
        }
    }
}

/// The category of an entry that names none.
pub open spec fn default_category() -> Seq<char> {
    "Default"@
}

impl Word {
    /// An entry from a stored row, in which the lists may be missing, and
    /// the category too: a missing list is empty, a missing category is
    /// `"Default"`.
    pub fn from_row(
        id: i64,
        word: String,
        meaning: String,
        synonyms: Option<String>,
        antonyms: Option<String>,
        category: Option<String>,
    ) -> (w: Word)
        ensures
            w@ == (WordModel {
                id: id as int,
                word: word@,
                meaning: meaning@,
                synonyms: if synonyms is Some { synonyms->0@ } else { Seq::empty() },
                antonyms: if antonyms is Some { antonyms->0@ } else { Seq::empty() },
                category: if category is Some { category->0@ } else { default_category() },
            }),
    {
        let synonyms = match synonyms {
            Some(s) => s,
            None => String::new(),
        };
        let antonyms = match antonyms {
            Some(s) => s,
            None => String::new(),
        };
        let category = match category {
            Some(s) => s,
            None => String::from_str("Default"),
        };
        Word { id, word, meaning, synonyms, antonyms, category }
    }
}

/// A category and the number of its entries.
#[derive(Debug)]
pub struct CategoryInfo {
    pub name: String,
    pub word_count: i64,
}

/// One recorded answer.
#[derive(Debug)]
pub struct Attempt {
    pub id: i64,
    /// The entry that was asked about; it need not be in the store.
    pub word_id: i64,
    pub mode: String,
    pub question_type: String,
    pub is_correct: bool,
    pub user_answer: String,
    pub expected_answer: String,
    pub time_taken_ms: Option<i64>,
    /// When the answer was recorded, in seconds since the Unix epoch;
    /// `None` where the clock gave no such time.
    pub timestamp: Option<u64>,
}

impl Clone for Attempt {
    fn clone(&self) -> (r: Self)
        ensures
            r == *self,
    {
        Attempt {
            id: self.id,
            word_id: self.word_id,
            mode: self.mode.clone(),
            question_type: self.question_type.clone(),
            is_correct: self.is_correct,
            user_answer: self.user_answer.clone(),
            expected_answer: self.expected_answer.clone(),
            time_taken_ms: self.time_taken_ms,
            timestamp: self.timestamp,
        }
    }
}

/// What a store holds: its entries and its attempts, each in the order in
/// which they came, and the identifiers that the next ones will get.
pub struct StoreModel {
    pub words: Seq<Word>,
    pub attempts: Seq<Attempt>,
    pub next_word_id: int,
    pub next_attempt_id: int,
}

/// The identifiers of the entries grow along the sequence, from 1 on, and
/// stay below `next`.
pub open spec fn word_ids_ordered(words: Seq<Word>, next: int) -> bool {
    &&& forall|i: int| 0 <= i < words.len() ==> 1 <= (#[trigger] words[i]).id < next
    &&& forall|i: int, j: int|
        0 <= i < j < words.len() ==> (#[trigger] words[i]).id < (#[trigger] words[j]).id
}

/// The identifiers of the attempts grow along the sequence, from 1 on, and
/// stay below `next`.
pub open spec fn attempt_ids_ordered(attempts: Seq<Attempt>, next: int) -> bool {
    &&& forall|i: int| 0 <= i < attempts.len() ==> 1 <= (#[trigger] attempts[i]).id < next
    &&& forall|i: int, j: int|
        0 <= i < j < attempts.len() ==> (#[trigger] attempts[i]).id < (#[trigger] attempts[j]).id
}

impl StoreModel {
    /// The invariant of a store: identifiers are unique, and never given
    /// twice.
    pub open spec fn wf(self) -> bool {
        &&& 1 <= self.next_word_id <= i64::MAX
        &&& 1 <= self.next_attempt_id <= i64::MAX
        &&& word_ids_ordered(self.words, self.next_word_id)
        &&& attempt_ids_ordered(self.attempts, self.next_attempt_id)
    }
}

/// The store.
#[derive(Debug)]
pub struct Store {
    words: Vec<Word>,
    attempts: Vec<Attempt>,
    next_word_id: i64,
    next_attempt_id: i64,
}

impl View for Store {
    type V = StoreModel;

    closed spec fn view(&self) -> StoreModel {
        StoreModel {
            words: self.words@,
            attempts: self.attempts@,
            next_word_id: self.next_word_id as int,
            next_attempt_id: self.next_attempt_id as int,
        }
    }
}

impl Store {
    /// The invariant that every operation keeps.
    pub open spec fn wf(&self) -> bool {
        self@.wf()
    }

    /// An empty store.
    pub fn new() -> (s: Store)
        ensures
            s.wf(),
            s@.words.len() == 0,
            s@.attempts.len() == 0,
            s@.next_word_id == 1,
            s@.next_attempt_id == 1,
    {
        Store { words: Vec::new(), attempts: Vec::new(), next_word_id: 1, next_attempt_id: 1 }
    }

    /// The number of entries.
    pub fn word_count(&self) -> (n: usize)
        ensures
            n == self@.words.len(),
    {
        self.words.len()
    }
}

/// Adds one entry and returns its identifier, which no entry had before.
pub fn add_word(
    store: &mut Store,
    word: &str,
    meaning: &str,
    synonyms: &str,
    antonyms: &str,
    category: &str,
) -> (r: Result<i64, CoreError>)
    requires
        old(store).wf(),
    ensures
        final(store).wf(),
        r is Err <==> old(store)@.next_word_id == i64::MAX,
        match r {
            Ok(id) => {
                &&& id == old(store)@.next_word_id
                &&& final(store)@.next_word_id == id + 1
                &&& final(store)@.next_attempt_id == old(store)@.next_attempt_id
                &&& final(store)@.attempts == old(store)@.attempts
                &&& final(store)@.words.len() == old(store)@.words.len() + 1
                &&& final(store)@.words.drop_last() == old(store)@.words
                &&& final(store)@.words.last()@ == (WordModel {
                    id: id as int,
                    word: word@,
                    meaning: meaning@,
                    synonyms: synonyms@,
                    antonyms: antonyms@,
                    category: category@,
                })
            },
            Err(e) => e.kind == ErrorKind::Storage && e.message@
                == "The store has no identifier left"@ && final(store)@ == old(store)@,
        },
{
    if store.next_word_id == i64::MAX {
        return Err(CoreError::new(ErrorKind::Storage, "The store has no identifier left"));
    }
    let id = store.next_word_id;
    let entry = Word {
        id,
        word: String::from_str(word),
        meaning: String::from_str(meaning),
        synonyms: String::from_str(synonyms),
        antonyms: String::from_str(antonyms),
        category: String::from_str(category),
    };
    store.next_word_id = id + 1;
    store.words.push(entry);
    assert(store@.words.drop_last() =~= old(store)@.words);
    Ok(id)
}

/// The first of the entries that has the given identifier. In a store it
/// is the only one.
pub open spec fn find_word(words: Seq<Word>, word_id: int) -> Option<Word>
    decreases words.len(),
{
    if words.len() == 0 {
        None
    } else if words[0].id == word_id {
        Some(words[0])
    } else {
        find_word(words.drop_first(), word_id)
    }
}

/// What `find_word` finds is an entry of the sequence with that
/// identifier, and it finds one wherever there is one.
pub proof fn lemma_find_word(words: Seq<Word>, word_id: int)
    ensures
        find_word(words, word_id) matches Some(w) ==> w.id == word_id && words.contains(w),
        find_word(words, word_id) is None ==> forall|i: int|
            0 <= i < words.len() ==> (#[trigger] words[i]).id != word_id,
    decreases words.len(),
{
    if words.len() > 0 {
        if words[0].id == word_id {
            assert(words.contains(words[0]));
        } else {
            let rest = words.drop_first();
            lemma_find_word(rest, word_id);
            if find_word(rest, word_id) is Some {
                let w = find_word(rest, word_id)->0;
                let k = choose|k: int| 0 <= k < rest.len() && rest[k] == w;
                assert(words[k + 1] == w);
            } else {
                assert forall|i: int| 0 <= i < words.len() implies (#[trigger] words[i]).id
                    != word_id by {
                    if i > 0 {
                        assert(rest[i - 1] == words[i]);
                    }
                }
            }
        }
    }
}

proof fn lemma_find_word_skip(words: Seq<Word>, word_id: int, i: int)
    requires
        0 <= i <= words.len(),
        forall|k: int| 0 <= k < i ==> (#[trigger] words[k]).id != word_id,
    ensures
        find_word(words, word_id) == find_word(words.skip(i), word_id),
    decreases i,
{
    if i == 0 {
        assert(words.skip(0) =~= words);
    } else {
        let rest = words.drop_first();
        assert(words[0].id != word_id);
        assert forall|k: int| 0 <= k < i - 1 implies (#[trigger] rest[k]).id != word_id by {
            assert(rest[k] == words[k + 1]);
        }
        lemma_find_word_skip(rest, word_id, i - 1);
        assert(rest.skip(i - 1) =~= words.skip(i));
    }
}

/// The entry with the given identifier, if the store holds it.
pub fn get_word_by_id(store: &Store, word_id: i64) -> (r: Option<Word>)
    ensures
        r == find_word(store@.words, word_id as int),
        r is Some <==> exists|i: int|
            0 <= i < store@.words.len() && (#[trigger] store@.words[i]).id == word_id,
        r matches Some(w) ==> w.id == word_id && store@.words.contains(w),
{
    let mut i: usize = 0;
    proof {
        lemma_find_word(store@.words, word_id as int);
    }
    while i < store.words.len()
        invariant
            i <= store.words.len(),
            forall|k: int| 0 <= k < i ==> (#[trigger] store@.words[k]).id != word_id,
        decreases store.words.len() - i,
    {
        if store.words[i].id == word_id {
            let found = store.words[i].clone();
            proof {
                assert(store@.words[i as int] == found);
                lemma_find_word_skip(store@.words, word_id as int, i as int);
                assert(store@.words.skip(i as int)[0] == found);
            }
            return Some(found);
        }
        i += 1;
    }
    proof {
        lemma_find_word_skip(store@.words, word_id as int, i as int);
        lemma_find_word(store@.words, word_id as int);
    }
    None
}

/// The order in which entries are listed.
#[derive(Clone, Copy, Debug, PartialEq, Eq, Structural)]
pub enum Order {
    /// By word, ascending.
    AToZ,
    /// By word, descending.
    ZToA,
    /// In an order drawn at random.
    Random,
}

/// The order that a token asks for. The case of the token's letters does
/// not count, and a token that names no order asks for `a_to_z`.
pub open spec fn order_of(token: Seq<char>) -> Order {
    if same_ignoring_case(token, "z_to_a"@) {
        Order::ZToA
    } else if same_ignoring_case(token, "random"@) {
        Order::Random
    } else {
        Order::AToZ
    }
}

/// The order that a token asks for.
pub fn parse_order(token: &str) -> (o: Order)
    ensures
        o == order_of(token@),
{
    if eq_ignore_case(token, "z_to_a") {
        Order::ZToA
    } else if eq_ignore_case(token, "random") {
        Order::Random
    } else {
        Order::AToZ
    }
}

/// Whether a word begins with the letter, whatever the case of the two.
pub open spec fn starts_with_letter(word: Seq<char>, letter: char) -> bool {
    word.len() > 0 && fold_ascii(word[0]) == fold_ascii(letter)
}

/// Whether a category is one of the given names, letter for letter.
pub open spec fn in_categories(category: Seq<char>, names: Seq<String>) -> bool {
    exists|i: int| 0 <= i < names.len() && (#[trigger] names[i])@ == category
}

/// Whether an entry passes the filters. A missing filter lets every entry
/// pass, and so does an empty list of categories.
pub open spec fn selected(w: Word, letter: Option<char>, categories: Option<Vec<String>>) -> bool {
    &&& match categories {
        Some(names) => names@.len() > 0 ==> in_categories(w.category@, names@),
        None => true,
    }
    &&& (letter matches Some(l) ==> starts_with_letter(w.word@, l))
}

/// The filters as a predicate on entries.
pub open spec fn selection(letter: Option<char>, categories: Option<Vec<String>>) -> spec_fn(
    Word,
) -> bool {
    |w: Word| selected(w, letter, categories)
}

/// Whether the filters are well-formed: no control character in the
/// letter or in a category name.
pub open spec fn filters_valid(letter: Option<char>, categories: Option<Vec<String>>) -> bool {
    &&& (letter matches Some(l) ==> !is_control(l))
    &&& (categories matches Some(names) ==> forall|i: int|
        0 <= i < names@.len() ==> !has_control((#[trigger] names@[i])@))
}

/// Whether the words of the entries ascend along the sequence.
pub open spec fn ascending(s: Seq<Word>) -> bool {
    forall|i: int, j: int|
        0 <= i < j < s.len() ==> text_le((#[trigger] s[i]).word@, (#[trigger] s[j]).word@)
}

/// Whether the words of the entries descend along the sequence.
pub open spec fn descending(s: Seq<Word>) -> bool {
    forall|i: int, j: int|
        0 <= i < j < s.len() ==> text_le((#[trigger] s[j]).word@, (#[trigger] s[i]).word@)
}

/// Whether `a` may stand before `b` in the given direction.
pub open spec fn may_precede(a: Word, b: Word, down: bool) -> bool {
    if down {
        text_le(b.word@, a.word@)
    } else {
        text_le(a.word@, b.word@)
    }
}

/// Whether each entry may stand before all that follow it.
pub open spec fn arranged(s: Seq<Word>, down: bool) -> bool {
    forall|i: int, j: int|
        0 <= i < j < s.len() ==> may_precede(#[trigger] s[i], #[trigger] s[j], down)
}

pub proof fn lemma_filter_push<A>(s: Seq<A>, x: A, pred: spec_fn(A) -> bool)
    ensures
        s.push(x).filter(pred) == if pred(x) {
            s.filter(pred).push(x)
        } else {
            s.filter(pred)
        },
{
    reveal(Seq::filter);
    assert(s.push(x).drop_last() =~= s);
}

fn passes_letter(w: &Word, letter: Option<char>) -> (r: bool)
    ensures
        r == (letter matches Some(l) ==> starts_with_letter(w.word@, l)),
{
    match letter {
        None => true,
        Some(l) => {
            let v = chars_of(w.word.as_str());
            v.len() > 0 && fold_char(v[0]) == fold_char(l)
        },
    }
}

fn passes_categories(w: &Word, categories: &Option<Vec<String>>) -> (r: bool)
    ensures
        r == match *categories {
            Some(names) => names@.len() > 0 ==> in_categories(w.category@, names@),
            None => true,
        },
{
    match categories {
        None => true,
        Some(names) => {
            if names.len() == 0 {
                return true;
            }
            let mut i: usize = 0;
            while i < names.len()
                invariant
                    i <= names.len(),
                    names.len() > 0,
                    *categories == Some(*names),
                    forall|k: int| 0 <= k < i ==> (#[trigger] names@[k])@ != w.category@,
                decreases names.len() - i,
            {
                if same_text(names[i].as_str(), w.category.as_str()) {
                    assert(names@[i as int]@ == w.category@);
                    return true;
                }
                i += 1;
            }
            false
        },
    }
}

fn check_filters(letter: Option<char>, categories: &Option<Vec<String>>) -> (r: bool)
    ensures
        r == filters_valid(letter, *categories),
{
    match letter {
        Some(l) => {
            if char_is_control(l) {
                return false;
            }
        },
        None => {},
    }
    match categories {
        None => true,
        Some(names) => {
            let mut i: usize = 0;
            while i < names.len()
                invariant
                    i <= names.len(),
                    *categories == Some(*names),
                    letter matches Some(l) ==> !is_control(l),
                    forall|k: int| 0 <= k < i ==> !has_control((#[trigger] names@[k])@),
                decreases names.len() - i,
            {
                if str_has_control(names[i].as_str()) {
                    assert(has_control((categories->0)@[i as int]@));
                    return false;
                }
                i += 1;
            }
            true
        },
    }
}

/// The entries that pass the filters, in the order of the store.
fn select_words(store: &Store, letter: Option<char>, categories: &Option<Vec<String>>) -> (out:
    Vec<Word>)
    ensures
        out@ == store@.words.filter(selection(letter, *categories)),
{
    let mut out: Vec<Word> = Vec::new();
    let mut i: usize = 0;
    let ghost pred = selection(letter, *categories);
    proof {
        reveal(Seq::filter);
        assert(store@.words.take(0) =~= Seq::<Word>::empty());
    }
    while i < store.words.len()
        invariant
            i <= store.words.len(),
            pred == selection(letter, *categories),
            out@ == store@.words.take(i as int).filter(pred),
        decreases store.words.len() - i,
    {
        let w = &store.words[i];
        proof {
            lemma_filter_push(store@.words.take(i as int), *w, pred);
            assert(store@.words.take(i as int).push(*w) =~= store@.words.take(i + 1));
        }
        if passes_categories(w, categories) && passes_letter(w, letter) {
            out.push(w.clone());
        }
        i += 1;
    }
    assert(store@.words.take(i as int) =~= store@.words);
    out
}

/// Sorts entries by word, ascending, or descending where `down` is set.
fn sort_words(items: Vec<Word>, down: bool) -> (out: Vec<Word>)
    ensures
        out@.to_multiset() == items@.to_multiset(),
        arranged(out@, down),
{
    let mut out: Vec<Word> = Vec::new();
    let mut i: usize = 0;
    assert(items@.take(0) =~= Seq::<Word>::empty());
    while i < items.len()
        invariant
            i <= items.len(),
            out@.to_multiset() == items@.take(i as int).to_multiset(),
            arranged(out@, down),
        decreases items.len() - i,
    {
        let w = items[i].clone();
        let mut pos: usize = out.len();
        while pos > 0 && !precedes(&out[pos - 1], &w, down)
            invariant
                pos <= out.len(),
                forall|k: int| pos <= k < out.len() ==> may_precede(w, #[trigger] out@[k], down),
            decreases pos,
        {
            proof {
                let prior = out@[pos - 1];
                lemma_text_le_total(prior.word@, w.word@);
            }
            pos -= 1;
        }
        let ghost before = out@;
        proof {
            assert forall|k: int| 0 <= k < pos implies may_precede(
                #[trigger] before[k],
                w,
                down,
            ) by {
                let last = before[pos - 1];
                if k < pos - 1 {
                    assert(may_precede(before[k], last, down));
                    if down {
                        lemma_text_le_transitive(w.word@, last.word@, before[k].word@);
                    } else {
                        lemma_text_le_transitive(before[k].word@, last.word@, w.word@);
                    }
                }
            }
        }
        out.insert(pos, w);
        proof {
            vstd::seq_lib::to_multiset_insert(before, pos as int, w);
            vstd::seq_lib::to_multiset_build(items@.take(i as int), w);
            assert(items@.take(i as int).push(w) =~= items@.take(i + 1));
            assert forall|a: int, b: int| 0 <= a < b < out@.len() implies may_precede(
                #[trigger] out@[a],
                #[trigger] out@[b],
                down,
            ) by {
                if a < pos && b > pos {
                    assert(out@[a] == before[a]);
                    assert(out@[b] == before[b - 1]);
                } else if a < pos && b == pos {
                    assert(out@[a] == before[a]);
                } else if a == pos {
                    assert(out@[b] == before[b - 1]);
                } else if b < pos {
                    assert(out@[a] == before[a]);
                    assert(out@[b] == before[b]);
                } else {
                    assert(out@[a] == before[a - 1]);
                    assert(out@[b] == before[b - 1]);
                }
            }
        }
        i += 1;
    }
    assert(items@.take(i as int) =~= items@);
    out
}

fn precedes(a: &Word, b: &Word, down: bool) -> (r: bool)
    ensures
        r == may_precede(*a, *b, down),
{
    if down {
        str_le(b.word.as_str(), a.word.as_str())
    } else {
        str_le(a.word.as_str(), b.word.as_str())
    }
}

/// Lists the entries that pass the filters, in the order asked for.
///
/// `order` is `a_to_z`, `z_to_a` or `random`; any other token lists as
/// `a_to_z` does. `letter` keeps the entries whose word begins with it,
/// in either case. `categories`, unless empty, keeps the entries of the
/// named categories. A control character in a filter is an error.
pub fn get_words(
    store: &Store,
    order: &str,
    letter: Option<char>,
    categories: Option<Vec<String>>,
    rng: &mut RandomSource,
) -> (r: Result<Vec<Word>, CoreError>)
    ensures
        r is Err <==> !filters_valid(letter, categories),
        r matches Err(e) ==> e.kind == ErrorKind::Input && e.message@
            == "A filter holds a control character"@,
        r matches Ok(v) ==> {
            &&& v@.to_multiset() == store@.words.filter(
                selection(letter, categories),
            ).to_multiset()
            &&& forall|i: int| 0 <= i < v@.len() ==> selected(#[trigger] v@[i], letter, categories)
            &&& forall|i: int|
                0 <= i < store@.words.len() && selected(
                    #[trigger] store@.words[i],
                    letter,
                    categories,
                ) ==> v@.contains(store@.words[i])
            &&& order_of(order@) == Order::AToZ ==> ascending(v@)
            &&& order_of(order@) == Order::ZToA ==> descending(v@)
        },
{
    if !check_filters(letter, &categories) {
        return Err(CoreError::new(ErrorKind::Input, "A filter holds a control character"));
    }
    let chosen = select_words(store, letter, &categories);
    let ghost kept = chosen@;
    let listed = match parse_order(order) {
        Order::AToZ => sort_words(chosen, false),
        Order::ZToA => sort_words(chosen, true),
        Order::Random => {
            let mut shuffled = chosen;
            rng.shuffle(&mut shuffled);
            shuffled
        },
    };
    proof {
        let pred = selection(letter, categories);
        assert forall|i: int| 0 <= i < listed@.len() implies selected(
            #[trigger] listed@[i],
            letter,
            categories,
        ) by {
            vstd::seq_lib::to_multiset_contains(listed@, listed@[i]);
            vstd::seq_lib::to_multiset_contains(kept, listed@[i]);
            assert(listed@.contains(listed@[i]));
            assert(kept.contains(listed@[i]));
            let k = choose|k: int| 0 <= k < kept.len() && kept[k] == listed@[i];
            store@.words.lemma_filter_pred(pred, k);
        }
        assert forall|i: int|
            0 <= i < store@.words.len() && selected(
                #[trigger] store@.words[i],
                letter,
                categories,
            ) implies listed@.contains(store@.words[i]) by {
            store@.words.lemma_filter_contains(pred, i);
            vstd::seq_lib::to_multiset_contains(listed@, store@.words[i]);
            vstd::seq_lib::to_multiset_contains(kept, store@.words[i]);
        }
    }
    Ok(listed)
}

/// Every entry of the store, in an order drawn at random.
pub fn get_all_words(store: &Store, rng: &mut RandomSource) -> (v: Vec<Word>)
    ensures
        v@.to_multiset() == store@.words.to_multiset(),
{
    let mut all: Vec<Word> = Vec::new();
    let mut i: usize = 0;
    assert(store@.words.take(0) =~= Seq::<Word>::empty());
    while i < store.words.len()
        invariant
            i <= store.words.len(),
            all@ == store@.words.take(i as int),
        decreases store.words.len() - i,
    {
        all.push(store.words[i].clone());
        assert(store@.words.take(i as int).push(store@.words[i as int]) =~= store@.words.take(
            i + 1,
        ));
        i += 1;
    }
    assert(store@.words.take(i as int) =~= store@.words);
    rng.shuffle(&mut all);
    all
}

/// In a store that keeps its invariant, an entry's identifier is above
/// its position, so the store holds fewer than `i64::MAX` entries.
pub proof fn lemma_word_ids_bound(words: Seq<Word>, next: int, i: int)
    requires
        word_ids_ordered(words, next),
        0 <= i < words.len(),
    ensures
        words[i].id >= i + 1,
    decreases i,
{
    if i > 0 {
        lemma_word_ids_bound(words, next, i - 1);
    }
}

/// The same of attempts.
pub proof fn lemma_attempt_ids_bound(attempts: Seq<Attempt>, next: int, i: int)
    requires
        attempt_ids_ordered(attempts, next),
        0 <= i < attempts.len(),
    ensures
        attempts[i].id >= i + 1,
    decreases i,
{
    if i > 0 {
        lemma_attempt_ids_bound(attempts, next, i - 1);
    }
}

/// No two entries of a store share an identifier.
pub proof fn lemma_word_ids_unique(m: StoreModel, i: int, j: int)
    requires
        m.wf(),
        0 <= i < m.words.len(),
        0 <= j < m.words.len(),
        m.words[i].id == m.words[j].id,
    ensures
        i == j,
{
    if i < j {
        assert(m.words[i].id < m.words[j].id);
    } else if j < i {
        assert(m.words[j].id < m.words[i].id);
    }
}

/// What entries hold, one for one.
pub open spec fn models(v: Seq<Word>) -> Seq<WordModel> {
    Seq::new(v.len(), |i: int| v[i]@)
}

/// What an entry becomes when it is loaded under a category with a new
/// identifier.
pub open spec fn placed(entry: WordModel, id: int, category: Seq<char>) -> WordModel {
    WordModel {
        id,
        word: entry.word,
        meaning: entry.meaning,
        synonyms: entry.synonyms,
        antonyms: entry.antonyms,
        category,
    }
}

/// Whether `after` is `before` with the entries added at the end, under
/// the given category, with the identifiers that were next.
pub open spec fn loaded_into(
    before: StoreModel,
    after: StoreModel,
    entries: Seq<WordModel>,
    category: Seq<char>,
) -> bool {
    &&& after.next_word_id == before.next_word_id + entries.len()
    &&& after.next_attempt_id == before.next_attempt_id
    &&& after.attempts == before.attempts
    &&& after.words.len() == before.words.len() + entries.len()
    &&& after.words.take(before.words.len() as int) == before.words
    &&& forall|k: int|
        0 <= k < entries.len() ==> (#[trigger] after.words[before.words.len() + k])@ == placed(
            entries[k],
            before.next_word_id + k,
            category,
        )
}

/// Adds every given entry under the given category, each with a new
/// identifier, and returns how many were added. What the store held
/// stays. Where the identifiers do not suffice, nothing is added.
pub fn load_vocabulary(store: &mut Store, words: Vec<Word>, category: &str) -> (r: Result<
    usize,
    CoreError,
>)
    requires
        old(store).wf(),
    ensures
        final(store).wf(),
        r is Err <==> old(store)@.next_word_id + words@.len() > i64::MAX,
        r matches Err(e) ==> e.kind == ErrorKind::Storage && e.message@
            == "The store has too few identifiers left"@ && final(store)@ == old(store)@,
        r matches Ok(n) ==> n == words@.len() && loaded_into(
            old(store)@,
            final(store)@,
            models(words@),
            category@,
        ),
{
    let room: u64 = (i64::MAX - store.next_word_id) as u64;
    if words.len() as u64 > room {
        return Err(CoreError::new(ErrorKind::Storage, "The store has too few identifiers left"));
    }
    let ghost before = store@;
    let base: usize = store.words.len();
    let mut k: usize = 0;
    assert(store@.words.take(base as int) =~= before.words);
    while k < words.len()
        invariant
            k <= words.len(),
            before.wf(),
            store.wf(),
            base == before.words.len(),
            before.next_word_id + words@.len() <= i64::MAX,
            store@.next_word_id == before.next_word_id + k,
            store@.next_attempt_id == before.next_attempt_id,
            store@.attempts == before.attempts,
            store@.words.len() == base + k,
            store@.words.take(base as int) == before.words,
            forall|j: int|
                0 <= j < k ==> (#[trigger] store@.words[base + j])@ == placed(
                    words@[j]@,
                    before.next_word_id + j,
                    category@,
                ),
        decreases words.len() - k,
    {
        let source = &words[k];
        let id = store.next_word_id;
        let entry = Word {
            id,
            word: source.word.clone(),
            meaning: source.meaning.clone(),
            synonyms: source.synonyms.clone(),
            antonyms: source.antonyms.clone(),
            category: String::from_str(category),
        };
        let ghost prior = store@.words;
        store.next_word_id = id + 1;
        store.words.push(entry);
        proof {
            assert(store@.words.take(base as int) =~= prior.take(base as int));
            assert forall|j: int| 0 <= j < k + 1 implies (#[trigger] store@.words[base + j])@
                == placed(words@[j]@, before.next_word_id + j, category@) by {
                if j < k {
                    assert(store@.words[base + j] == prior[base + j]);
                }
            }
        }
        k += 1;
    }
    Ok(words.len())
}

/// How many of the entries are in the category.
pub open spec fn count_in_category(words: Seq<Word>, name: Seq<char>) -> nat
    decreases words.len(),
{
    if words.len() == 0 {
        0
    } else {
        count_in_category(words.drop_last(), name) + if words.last().category@ == name {
            1nat
        } else {
            0nat
        }
    }
}

/// Whether the names ascend strictly along the sequence.
pub open spec fn names_ascend(s: Seq<CategoryInfo>) -> bool {
    forall|i: int, j: int|
        0 <= i < j < s.len() ==> text_le((#[trigger] s[i]).name@, (#[trigger] s[j]).name@)
            && s[i].name@ != s[j].name@
}

/// Whether each count is the number of entries in its category, and not
/// zero.
pub open spec fn counts_match(s: Seq<CategoryInfo>, words: Seq<Word>) -> bool {
    forall|i: int|
        0 <= i < s.len() ==> (#[trigger] s[i]).word_count == count_in_category(words, s[i].name@)
            && s[i].word_count >= 1
}

/// Whether a category is listed.
pub open spec fn lists_category(s: Seq<CategoryInfo>, name: Seq<char>) -> bool {
    exists|i: int| 0 <= i < s.len() && (#[trigger] s[i]).name@ == name
}

/// Whether the category of every entry is listed.
pub open spec fn names_cover(s: Seq<CategoryInfo>, words: Seq<Word>) -> bool {
    forall|k: int| 0 <= k < words.len() ==> lists_category(s, (#[trigger] words[k]).category@)
}

proof fn lemma_count_bound(words: Seq<Word>, name: Seq<char>)
    ensures
        count_in_category(words, name) <= words.len(),
    decreases words.len(),
{
    if words.len() > 0 {
        lemma_count_bound(words.drop_last(), name);
    }
}

proof fn lemma_count_zero(words: Seq<Word>, name: Seq<char>)
    requires
        forall|k: int| 0 <= k < words.len() ==> (#[trigger] words[k]).category@ != name,
    ensures
        count_in_category(words, name) == 0,
    decreases words.len(),
{
    if words.len() > 0 {
        let rest = words.drop_last();
        assert forall|k: int| 0 <= k < rest.len() implies (#[trigger] rest[k]).category@
            != name by {
            assert(rest[k] == words[k]);
        }
        lemma_count_zero(rest, name);
    }
}

/// The categories of the store, by name ascending, each with the number
/// of its entries.
pub fn get_categories(store: &Store) -> (out: Vec<CategoryInfo>)
    requires
        store.wf(),
    ensures
        names_ascend(out@),
        counts_match(out@, store@.words),
        names_cover(out@, store@.words),
{
    let mut out: Vec<CategoryInfo> = Vec::new();
    let mut i: usize = 0;
    let ghost all = store@.words;
    while i < store.words.len()
        invariant
            i <= store.words.len(),
            all == store@.words,
            store.wf(),
            names_ascend(out@),
            counts_match(out@, all.take(i as int)),
            names_cover(out@, all.take(i as int)),
        decreases store.words.len() - i,
    {
        let w = &store.words[i];
        let ghost cat = w.category@;
        let ghost seen = all.take(i as int);
        let ghost next = all.take(i + 1);
        let ghost before = out@;
        proof {
            assert(next.drop_last() =~= seen);
            assert(next.last() == *w);
            if i > 0 {
                lemma_word_ids_bound(all, store@.next_word_id, i as int);
            }
        }
        let mut pos: usize = 0;
        while pos < out.len() && !str_le(w.category.as_str(), out[pos].name.as_str())
            invariant
                pos <= out.len(),
                cat == w.category@,
                forall|k: int| 0 <= k < pos ==> !text_le(cat, (#[trigger] out@[k]).name@),
            decreases out.len() - pos,
        {
            pos += 1;
        }
        proof {
            lemma_text_le_total(cat, cat);
            assert forall|k: int| 0 <= k < pos implies text_le((#[trigger] before[k]).name@, cat)
                && before[k].name@ != cat by {
                lemma_text_le_total(cat, before[k].name@);
            }
        }
        if pos < out.len() && same_text(out[pos].name.as_str(), w.category.as_str()) {
            let name = out[pos].name.clone();
            let count = out[pos].word_count;
            proof {
                lemma_count_bound(seen, cat);
            }
            out[pos] = CategoryInfo { name, word_count: count + 1 };
            proof {
                assert forall|a: int, b: int| 0 <= a < b < out@.len() implies text_le(
                    (#[trigger] out@[a]).name@,
                    (#[trigger] out@[b]).name@,
                ) && out@[a].name@ != out@[b].name@ by {
                    assert(out@[a].name@ == before[a].name@);
                    assert(out@[b].name@ == before[b].name@);
                }
                assert forall|a: int| 0 <= a < out@.len() implies (#[trigger] out@[a]).word_count
                    == count_in_category(next, out@[a].name@) && out@[a].word_count >= 1 by {
                    if a != pos {
                        assert(out@[a] == before[a]);
                        if a < pos {
                            assert(before[a].name@ != before[pos as int].name@);
                        } else {
                            assert(before[pos as int].name@ != before[a].name@);
                        }
                    }
                }
                assert forall|k: int| 0 <= k < next.len() implies lists_category(
                    out@,
                    (#[trigger] next[k]).category@,
                ) by {
                    if k < i {
                        assert(next[k] == seen[k]);
                        assert(lists_category(before, seen[k].category@));
                        let a = choose|a: int|
                            0 <= a < before.len() && (#[trigger] before[a]).name@
                                == seen[k].category@;
                        assert(out@[a].name@ == before[a].name@);
                    } else {
                        assert(out@[pos as int].name@ == cat);
                    }
                }
            }
        } else {
            proof {
                assert forall|k: int| pos <= k < before.len() implies text_le(
                    cat,
                    (#[trigger] before[k]).name@,
                ) && before[k].name@ != cat by {
                    let head = before[pos as int];
                    if k > pos {
                        assert(text_le(head.name@, before[k].name@));
                        lemma_text_le_transitive(cat, head.name@, before[k].name@);
                        if before[k].name@ == cat {
                            lemma_text_le_antisymmetric(head.name@, cat);
                        }
                    }
                }
                assert forall|k: int| 0 <= k < seen.len() implies (#[trigger] seen[k]).category@
                    != cat by {
                    assert(lists_category(before, seen[k].category@));
                }
                lemma_count_zero(seen, cat);
            }
            let fresh = CategoryInfo { name: w.category.clone(), word_count: 1 };
            out.insert(pos, fresh);
            proof {
                assert forall|a: int, b: int| 0 <= a < b < out@.len() implies text_le(
                    (#[trigger] out@[a]).name@,
                    (#[trigger] out@[b]).name@,
                ) && out@[a].name@ != out@[b].name@ by {
                    if a < pos {
                        assert(out@[a] == before[a]);
                    } else if a > pos {
                        assert(out@[a] == before[a - 1]);
                    }
                    if b < pos {
                        assert(out@[b] == before[b]);
                    } else if b > pos {
                        assert(out@[b] == before[b - 1]);
                    }
                }
                assert forall|a: int| 0 <= a < out@.len() implies (#[trigger] out@[a]).word_count
                    == count_in_category(next, out@[a].name@) && out@[a].word_count >= 1 by {
                    if a < pos {
                        assert(out@[a] == before[a]);
                    } else if a > pos {
                        assert(out@[a] == before[a - 1]);
                    }
                }
                assert forall|k: int| 0 <= k < next.len() implies lists_category(
                    out@,
                    (#[trigger] next[k]).category@,
                ) by {
                    if k < i {
                        assert(next[k] == seen[k]);
                        assert(lists_category(before, seen[k].category@));
                        let a = choose|a: int|
                            0 <= a < before.len() && (#[trigger] before[a]).name@
                                == seen[k].category@;
                        if a < pos {
                            assert(out@[a] == before[a]);
                        } else {
                            assert(out@[a + 1] == before[a]);
                        }
                    } else {
                        assert(out@[pos as int].name@ == cat);
                    }
                }
            }
        }
        i += 1;
    }
    assert(all.take(i as int) =~= all);
    out
}

/// The entries that are not in the named category.
pub open spec fn outside_category(name: Seq<char>) -> spec_fn(Word) -> bool {
    |w: Word| w.category@ != name
}

/// Whether an identifier is that of an entry in the named category.
pub open spec fn id_in_category(words: Seq<Word>, word_id: int, name: Seq<char>) -> bool {
    exists|i: int|
        0 <= i < words.len() && (#[trigger] words[i]).id == word_id && words[i].category@ == name
}

/// The attempts that refer to no entry of the named category.
pub open spec fn outside_attempts(words: Seq<Word>, name: Seq<char>) -> spec_fn(Attempt) -> bool {
    |a: Attempt| !id_in_category(words, a.word_id as int, name)
}

/// Whether some entry is in the named category.
pub open spec fn has_category(words: Seq<Word>, name: Seq<char>) -> bool {
    exists|i: int| 0 <= i < words.len() && (#[trigger] words[i]).category@ == name
}

/// What deleting a category leaves: the entries outside the category, all
/// of them, and the attempts that refer to no entry of the category, all
/// of them.
pub proof fn lemma_category_deleted(
    words: Seq<Word>,
    attempts: Seq<Attempt>,
    name: Seq<char>,
    w: Word,
    a: Attempt,
)
    ensures
        words.filter(outside_category(name)).contains(w) <==> words.contains(w) && w.category@
            != name,
        attempts.filter(outside_attempts(words, name)).contains(a) <==> attempts.contains(a)
            && !id_in_category(words, a.word_id as int, name),
{
    let keep_word = outside_category(name);
    let keep_attempt = outside_attempts(words, name);
    if words.filter(keep_word).contains(w) {
        let kept = words.filter(keep_word);
        let i = choose|i: int| 0 <= i < kept.len() && kept[i] == w;
        words.lemma_filter_pred(keep_word, i);
        words.lemma_filter_contains_rev(keep_word, w);
    }
    if words.contains(w) && w.category@ != name {
        let i = choose|i: int| 0 <= i < words.len() && words[i] == w;
        words.lemma_filter_contains(keep_word, i);
    }
    if attempts.filter(keep_attempt).contains(a) {
        let i = choose|i: int|
            0 <= i < attempts.filter(keep_attempt).len() && attempts.filter(keep_attempt)[i] == a;
        attempts.lemma_filter_pred(keep_attempt, i);
        attempts.lemma_filter_contains_rev(keep_attempt, a);
    }
    if attempts.contains(a) && !id_in_category(words, a.word_id as int, name) {
        let i = choose|i: int| 0 <= i < attempts.len() && attempts[i] == a;
        attempts.lemma_filter_contains(keep_attempt, i);
    }
}

/// Deleting a category empties it and leaves the number of entries of
/// every other category as it was.
pub proof fn lemma_delete_keeps_counts(words: Seq<Word>, name: Seq<char>, other: Seq<char>)
    ensures
        count_in_category(words.filter(outside_category(name)), other) == if other == name {
            0
        } else {
            count_in_category(words, other)
        },
    decreases words.len(),
{
    reveal(Seq::filter);
    if words.len() > 0 {
        let front = words.drop_last();
        let last = words.last();
        lemma_delete_keeps_counts(front, name, other);
        if last.category@ != name {
            let kept = front.filter(outside_category(name)).push(last);
            assert(kept.drop_last() =~= front.filter(outside_category(name)));
            assert(kept.last() == last);
        }
    }
}

fn refers_into(words: &Vec<Word>, word_id: i64, category: &str) -> (r: bool)
    ensures
        r == id_in_category(words@, word_id as int, category@),
{
    let mut i: usize = 0;
    while i < words.len()
        invariant
            i <= words.len(),
            forall|k: int|
                0 <= k < i ==> !((#[trigger] words@[k]).id == word_id && words@[k].category@
                    == category@),
        decreases words.len() - i,
    {
        if words[i].id == word_id && same_text(words[i].category.as_str(), category) {
            assert(words@[i as int].id == word_id && words@[i as int].category@ == category@);
            return true;
        }
        i += 1;
    }
    false
}

/// Deletes a category: its entries, and with them every attempt that
/// refers to one of them. The rest of the store stays as it is, in its
/// order. Returns the number of entries deleted, zero where no entry is
/// in the category.
pub fn delete_category(store: &mut Store, category: &str) -> (n: usize)
    requires
        old(store).wf(),
    ensures
        final(store).wf(),
        final(store)@.words == old(store)@.words.filter(outside_category(category@)),
        final(store)@.attempts == old(store)@.attempts.filter(
            outside_attempts(old(store)@.words, category@),
        ),
        final(store)@.next_word_id == old(store)@.next_word_id,
        final(store)@.next_attempt_id == old(store)@.next_attempt_id,
        n == old(store)@.words.len() - final(store)@.words.len(),
        !has_category(old(store)@.words, category@) ==> final(store)@ == old(store)@ && n == 0,
{
    let ghost before = store@;
    let ghost keep_word = outside_category(category@);
    let ghost keep_attempt = outside_attempts(before.words, category@);
    let mut words: Vec<Word> = Vec::new();
    let mut i: usize = 0;
    proof {
        reveal(Seq::filter);
        assert(before.words.take(0) =~= Seq::<Word>::empty());
        assert(before.attempts.take(0) =~= Seq::<Attempt>::empty());
    }
    while i < store.words.len()
        invariant
            i <= store.words.len(),
            store@ == before,
            before.wf(),
            keep_word == outside_category(category@),
            words@ == before.words.take(i as int).filter(keep_word),
            words@.len() <= i,
            word_ids_ordered(words@, before.next_word_id),
            forall|a: int, k: int|
                0 <= a < words@.len() && i <= k < before.words.len() ==> (#[trigger] words@[a]).id
                    < (#[trigger] before.words[k]).id,
            (forall|k: int| 0 <= k < i ==> (#[trigger] before.words[k]).category@ != category@)
                ==> words@ == before.words.take(i as int),
        decreases store.words.len() - i,
    {
        let w = &store.words[i];
        let ghost prior = words@;
        proof {
            lemma_filter_push(before.words.take(i as int), *w, keep_word);
            assert(before.words.take(i as int).push(*w) =~= before.words.take(i + 1));
        }
        if !same_text(w.category.as_str(), category) {
            words.push(w.clone());
            proof {
                assert forall|a: int, b: int| 0 <= a < b < words@.len() implies (
                #[trigger] words@[a]).id < (#[trigger] words@[b]).id by {
                    if b < prior.len() {
                        assert(words@[a] == prior[a]);
                        assert(words@[b] == prior[b]);
                    } else {
                        assert(words@[a] == prior[a]);
                        assert(words@[b] == before.words[i as int]);
                    }
                }
                assert forall|a: int| 0 <= a < words@.len() implies 1 <= (#[trigger] words@[a]).id
                    < before.next_word_id by {
                    if a < prior.len() {
                        assert(words@[a] == prior[a]);
                    } else {
                        assert(words@[a] == before.words[i as int]);
                    }
                }
                assert forall|a: int, k: int|
                    0 <= a < words@.len() && i + 1 <= k < before.words.len() implies (
                #[trigger] words@[a]).id < (#[trigger] before.words[k]).id by {
                    if a < prior.len() {
                        assert(words@[a] == prior[a]);
                    } else {
                        assert(words@[a] == before.words[i as int]);
                    }
                }
            }
        } else {
            assert(before.words[i as int].category@ == category@);
        }
        i += 1;
    }
    assert(before.words.take(i as int) =~= before.words);
    let mut attempts: Vec<Attempt> = Vec::new();
    let mut j: usize = 0;
    while j < store.attempts.len()
        invariant
            j <= store.attempts.len(),
            store@ == before,
            before.wf(),
            keep_attempt == outside_attempts(before.words, category@),
            attempts@ == before.attempts.take(j as int).filter(keep_attempt),
            attempt_ids_ordered(attempts@, before.next_attempt_id),
            forall|a: int, k: int|
                0 <= a < attempts@.len() && j <= k < before.attempts.len() ==> (
                #[trigger] attempts@[a]).id < (#[trigger] before.attempts[k]).id,
            !has_category(before.words, category@) ==> attempts@ == before.attempts.take(j as int),
        decreases store.attempts.len() - j,
    {
        let a = &store.attempts[j];
        let ghost prior = attempts@;
        proof {
            lemma_filter_push(before.attempts.take(j as int), *a, keep_attempt);
            assert(before.attempts.take(j as int).push(*a) =~= before.attempts.take(j + 1));
        }
        if !refers_into(&store.words, a.word_id, category) {
            attempts.push(a.clone());
            proof {
                assert forall|x: int, y: int| 0 <= x < y < attempts@.len() implies (
                #[trigger] attempts@[x]).id < (#[trigger] attempts@[y]).id by {
                    if y < prior.len() {
                        assert(attempts@[x] == prior[x]);
                        assert(attempts@[y] == prior[y]);
                    } else {
                        assert(attempts@[x] == prior[x]);
                        assert(attempts@[y] == before.attempts[j as int]);
                    }
                }
                assert forall|x: int| 0 <= x < attempts@.len() implies 1 <= (
                #[trigger] attempts@[x]).id < before.next_attempt_id by {
                    if x < prior.len() {
                        assert(attempts@[x] == prior[x]);
                    } else {
                        assert(attempts@[x] == before.attempts[j as int]);
                    }
                }
                assert forall|x: int, k: int|
                    0 <= x < attempts@.len() && j + 1 <= k < before.attempts.len() implies (
                #[trigger] attempts@[x]).id < (#[trigger] before.attempts[k]).id by {
                    if x < prior.len() {
                        assert(attempts@[x] == prior[x]);
                    } else {
                        assert(attempts@[x] == before.attempts[j as int]);
                    }
                }
            }
        }
        j += 1;
    }
    assert(before.attempts.take(j as int) =~= before.attempts);
    let n: usize = store.words.len() - words.len();
    store.words = words;
    store.attempts = attempts;
    n
}

/// The identifier of the last of the entries, or 0 where there is none.
pub open spec fn last_word_id(words: Seq<Word>) -> int {
    if words.len() == 0 {
        0
    } else {
        words.last().id as int
    }
}

/// The identifier of the last of the attempts, or 0 where there is none.
pub open spec fn last_attempt_id(attempts: Seq<Attempt>) -> int {
    if attempts.len() == 0 {
        0
    } else {
        attempts.last().id as int
    }
}

/// The identifier that comes next, after the last row and after the
/// highest identifier ever given.
pub open spec fn next_after(last_row: int, given: int) -> int {
    if last_row >= given {
        last_row + 1
    } else {
        given + 1
    }
}

impl Store {
    /// The entries, in the order in which they came.
    pub fn entries(&self) -> (r: &Vec<Word>)
        ensures
            r@ == self@.words,
    {
        &self.words
    }

    /// The attempts, in the order in which they came.
    pub fn attempts(&self) -> (r: &Vec<Attempt>)
        ensures
            r@ == self@.attempts,
    {
        &self.attempts
    }

    /// A store that holds the given rows, which must come by identifier,
    /// ascending from 1 on, none twice and none at `i64::MAX`. The next
    /// identifiers follow the last rows.
    pub fn restore(words: Vec<Word>, attempts: Vec<Attempt>) -> (r: Result<Store, CoreError>)
        ensures
            r is Ok <==> word_ids_ordered(words@, i64::MAX as int) && attempt_ids_ordered(
                attempts@,
                i64::MAX as int,
            ),
            r matches Err(e) ==> e.kind == ErrorKind::Storage && e.message@ == if word_ids_ordered(
                words@,
                i64::MAX as int,
            ) {
                "The attempts do not come by identifier"@
            } else {
                "The entries do not come by identifier"@
            },
            r matches Ok(s) ==> {
                &&& s.wf()
                &&& s@.words == words@
                &&& s@.attempts == attempts@
                &&& s@.next_word_id == if words@.len() == 0 {
                    1
                } else {
                    words@.last().id + 1
                }
                &&& s@.next_attempt_id == if attempts@.len() == 0 {
                    1
                } else {
                    attempts@.last().id + 1
                }
            },
    {
        Store::restore_after(words, attempts, 0, 0)
    }

    /// A store that holds the given rows, in which identifiers were given
    /// before that the rows no longer show: `given_words` and
    /// `given_attempts` are the highest identifiers ever given, or 0. No
    /// identifier is given a second time: the next ones follow the last
    /// row or the highest ever given, whichever is higher. The rows must
    /// come by identifier, ascending from 1 on, none twice and none at
    /// `i64::MAX`.
    pub fn restore_after(
        words: Vec<Word>,
        attempts: Vec<Attempt>,
        given_words: i64,
        given_attempts: i64,
    ) -> (r: Result<Store, CoreError>)
        ensures
            r is Ok <==> {
                &&& 0 <= given_words < i64::MAX
                &&& 0 <= given_attempts < i64::MAX
                &&& word_ids_ordered(words@, i64::MAX as int)
                &&& attempt_ids_ordered(attempts@, i64::MAX as int)
            },
            r matches Err(e) ==> e.kind == ErrorKind::Storage && e.message@ == if !(0
                <= given_words < i64::MAX && 0 <= given_attempts < i64::MAX) {
                "The identifiers given before are out of range"@
            } else if word_ids_ordered(words@, i64::MAX as int) {
                "The attempts do not come by identifier"@
            } else {
                "The entries do not come by identifier"@
            },
            r matches Ok(s) ==> {
                &&& s.wf()
                &&& s@.words == words@
                &&& s@.attempts == attempts@
                &&& s@.next_word_id == next_after(last_word_id(words@), given_words as int)
                &&& s@.next_attempt_id == next_after(
                    last_attempt_id(attempts@),
                    given_attempts as int,
                )
            },
    {
        if given_words < 0 || given_words == i64::MAX || given_attempts < 0 || given_attempts
            == i64::MAX {
            return Err(
                CoreError::new(ErrorKind::Storage, "The identifiers given before are out of range"),
            );
        }
        let mut last: i64 = 0;
        let mut i: usize = 0;
        while i < words.len()
            invariant
                i <= words.len(),
                0 <= given_words < i64::MAX,
                0 <= given_attempts < i64::MAX,
                0 <= last < i64::MAX,
                i > 0 ==> last == words@[i - 1].id,
                i == 0 ==> last == 0,
                word_ids_ordered(words@.take(i as int), last + 1),
            decreases words.len() - i,
        {
            let id = words[i].id;
            if id <= last || id == i64::MAX {
                proof {
                    if word_ids_ordered(words@, i64::MAX as int) {
                        if i > 0 {
                            assert(words@[i - 1].id < words@[i as int].id);
                        }
                        assert(1 <= words@[i as int].id < i64::MAX);
                    }
                }
                return Err(
                    CoreError::new(ErrorKind::Storage, "The entries do not come by identifier"),
                );
            }
            proof {
                let t = words@.take(i + 1);
                assert forall|a: int, b: int| 0 <= a < b < t.len() implies (#[trigger] t[a]).id < (
                #[trigger] t[b]).id by {
                    if b < i {
                        assert(words@.take(i as int)[a].id < words@.take(i as int)[b].id);
                    } else {
                        assert(1 <= words@.take(i as int)[a].id < last + 1);
                    }
                }
                assert forall|a: int| 0 <= a < t.len() implies 1 <= (#[trigger] t[a]).id < id
                    + 1 by {
                    if a < i {
                        assert(1 <= words@.take(i as int)[a].id < last + 1);
                    }
                }
            }
            last = id;
            i += 1;
        }
        assert(words@.take(i as int) =~= words@);
        let next_word_id: i64 = if last >= given_words {
            last + 1
        } else {
            given_words + 1
        };
        assert(word_ids_ordered(words@, i64::MAX as int));
        let mut last: i64 = 0;
        let mut j: usize = 0;
        while j < attempts.len()
            invariant
                j <= attempts.len(),
                0 <= given_words < i64::MAX,
                0 <= given_attempts < i64::MAX,
                word_ids_ordered(words@, i64::MAX as int),
                0 <= last < i64::MAX,
                j > 0 ==> last == attempts@[j - 1].id,
                j == 0 ==> last == 0,
                attempt_ids_ordered(attempts@.take(j as int), last + 1),
            decreases attempts.len() - j,
        {
            let id = attempts[j].id;
            if id <= last || id == i64::MAX {
                proof {
                    if attempt_ids_ordered(attempts@, i64::MAX as int) {
                        if j > 0 {
                            assert(attempts@[j - 1].id < attempts@[j as int].id);
                        }
                        assert(1 <= attempts@[j as int].id < i64::MAX);
                    }
                }
                return Err(
                    CoreError::new(ErrorKind::Storage, "The attempts do not come by identifier"),
                );
            }
            proof {
                let t = attempts@.take(j + 1);
                assert forall|a: int, b: int| 0 <= a < b < t.len() implies (#[trigger] t[a]).id < (
                #[trigger] t[b]).id by {
                    if b < j {
                        assert(attempts@.take(j as int)[a].id < attempts@.take(j as int)[b].id);
                    } else {
                        assert(1 <= attempts@.take(j as int)[a].id < last + 1);
                    }
                }
                assert forall|a: int| 0 <= a < t.len() implies 1 <= (#[trigger] t[a]).id < id
                    + 1 by {
                    if a < j {
                        assert(1 <= attempts@.take(j as int)[a].id < last + 1);
                    }
                }
            }
            last = id;
            j += 1;
        }
        assert(attempts@.take(j as int) =~= attempts@);
        let next_attempt_id: i64 = if last >= given_attempts {
            last + 1
        } else {
            given_attempts + 1
        };
        Ok(Store { words, attempts, next_word_id, next_attempt_id })
    }
}

impl Store {
    /// Appends an attempt, which gets the next identifier. The attempt's
    /// own `id` is not read. Nothing is appended where no identifier is
    /// left.
    pub fn append_attempt(&mut self, attempt: Attempt) -> (r: Result<i64, CoreError>)
        requires
            old(self).wf(),
        ensures
            final(self).wf(),
            r is Err <==> old(self)@.next_attempt_id == i64::MAX,
            r matches Err(e) ==> e.kind == ErrorKind::Storage && e.message@
                == "The store has no identifier left"@ && final(self)@ == old(self)@,
            r matches Ok(id) ==> {
                &&& id == old(self)@.next_attempt_id
                &&& final(self)@.next_attempt_id == id + 1
                &&& final(self)@.next_word_id == old(self)@.next_word_id
                &&& final(self)@.words == old(self)@.words
                &&& final(self)@.attempts == old(self)@.attempts.push(
                    Attempt {
                        id,
                        word_id: attempt.word_id,
                        mode: attempt.mode,
                        question_type: attempt.question_type,
                        is_correct: attempt.is_correct,
                        user_answer: attempt.user_answer,
                        expected_answer: attempt.expected_answer,
                        time_taken_ms: attempt.time_taken_ms,
                        timestamp: attempt.timestamp,
                    },
                )
            },
    {
        if self.next_attempt_id == i64::MAX {
            return Err(CoreError::new(ErrorKind::Storage, "The store has no identifier left"));
        }
        let id = self.next_attempt_id;
        let mut attempt = attempt;
        attempt.id = id;
        self.next_attempt_id = id + 1;
        self.attempts.push(attempt);
        Ok(id)
    }
}

} // verus!
