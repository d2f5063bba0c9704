//! Four-option questions about an entry of the store.

use crate::db::{find_word, get_word_by_id, Store, Word};
use crate::error::{CoreError, ErrorKind};
use crate::random::RandomSource;
use crate::text::{list_items, same_text, split_items, texts, trimmed};
use vstd::prelude::*;
use vstd::string::*;

verus! {

/// A field of an entry that a question can show or ask for.
#[derive(Clone, Copy, Debug, PartialEq, Eq, Structural)]
pub enum Field {
    Word,
    Meaning,
    Synonym,
    Antonym,
}

impl Field {
    /// Whether the field holds a comma-delimited list.
    pub open spec fn is_list(self) -> bool {
        self is Synonym || self is Antonym
    }
}

/// What a question shows and what it asks for: the twelve pairs of two
/// different fields.
#[derive(Clone, Copy, Debug, PartialEq, Eq, Structural)]
pub enum QuestionType {
    WordToMeaning,
    MeaningToWord,
    WordToSynonym,
    WordToAntonym,
    SynonymToWord,
    AntonymToWord,
    SynonymToMeaning,
    AntonymToMeaning,
    MeaningToSynonym,
    MeaningToAntonym,
    SynonymToAntonym,
    AntonymToSynonym,
}

impl QuestionType {
    /// The field that the question shows.
    pub open spec fn shown(self) -> Field {
        match self {
            QuestionType::WordToMeaning => Field::Word,
            QuestionType::WordToSynonym => Field::Word,
            QuestionType::WordToAntonym => Field::Word,
            QuestionType::MeaningToWord => Field::Meaning,
            QuestionType::MeaningToSynonym => Field::Meaning,
            QuestionType::MeaningToAntonym => Field::Meaning,
            QuestionType::SynonymToWord => Field::Synonym,
            QuestionType::SynonymToMeaning => Field::Synonym,
            QuestionType::SynonymToAntonym => Field::Synonym,
            QuestionType::AntonymToWord => Field::Antonym,
            QuestionType::AntonymToMeaning => Field::Antonym,
            QuestionType::AntonymToSynonym => Field::Antonym,
        }
    }

    /// The field that the question asks for.
    pub open spec fn asked(self) -> Field {
        match self {
            QuestionType::MeaningToWord => Field::Word,
            QuestionType::SynonymToWord => Field::Word,
            QuestionType::AntonymToWord => Field::Word,
            QuestionType::WordToMeaning => Field::Meaning,
            QuestionType::SynonymToMeaning => Field::Meaning,
            QuestionType::AntonymToMeaning => Field::Meaning,
            QuestionType::WordToSynonym => Field::Synonym,
            QuestionType::MeaningToSynonym => Field::Synonym,
            QuestionType::AntonymToSynonym => Field::Synonym,
            QuestionType::WordToAntonym => Field::Antonym,
            QuestionType::MeaningToAntonym => Field::Antonym,
            QuestionType::SynonymToAntonym => Field::Antonym,
        }
    }

    /// How the question begins, up to the opening quote.
    pub open spec fn lead(self) -> Seq<char> {
        match self {
            QuestionType::WordToMeaning => "What is the meaning of '"@,
            QuestionType::MeaningToWord => "Which word means: '"@,
            QuestionType::WordToSynonym => "Which is a synonym of '"@,
            QuestionType::WordToAntonym => "Which is an antonym of '"@,
            QuestionType::SynonymToWord => "Which word has the synonym '"@,
            QuestionType::AntonymToWord => "Which word has the antonym '"@,
            QuestionType::SynonymToMeaning => "What is the meaning of the word with synonym '"@,
            QuestionType::AntonymToMeaning => "What is the meaning of the word with antonym '"@,
            QuestionType::MeaningToSynonym => "Which is a synonym of the word meaning: '"@,
            QuestionType::MeaningToAntonym => "Which is an antonym of the word meaning: '"@,
            QuestionType::SynonymToAntonym => "Which is an antonym of the word with synonym '"@,
            QuestionType::AntonymToSynonym => "Which is a synonym of the word with antonym '"@,
        }
    }

    /// How many characters of a meaning the question shows at most; other
    /// fields are shown whole.
    pub open spec fn room(self) -> Option<nat> {
        match self {
            QuestionType::MeaningToWord => Some(100nat),
            QuestionType::MeaningToSynonym => Some(80nat),
            QuestionType::MeaningToAntonym => Some(80nat),
            _ => None,
        }
    }

    fn shown_field(self) -> (f: Field)
        ensures
            f == self.shown(),
    {
        match self {
            QuestionType::WordToMeaning => Field::Word,
            QuestionType::WordToSynonym => Field::Word,
            QuestionType::WordToAntonym => Field::Word,
            QuestionType::MeaningToWord => Field::Meaning,
            QuestionType::MeaningToSynonym => Field::Meaning,
            QuestionType::MeaningToAntonym => Field::Meaning,
            QuestionType::SynonymToWord => Field::Synonym,
            QuestionType::SynonymToMeaning => Field::Synonym,
            QuestionType::SynonymToAntonym => Field::Synonym,
            QuestionType::AntonymToWord => Field::Antonym,
            QuestionType::AntonymToMeaning => Field::Antonym,
            QuestionType::AntonymToSynonym => Field::Antonym,
        }
    }

    fn asked_field(self) -> (f: Field)
        ensures
            f == self.asked(),
    {
        match self {
            QuestionType::MeaningToWord => Field::Word,
            QuestionType::SynonymToWord => Field::Word,
            QuestionType::AntonymToWord => Field::Word,
            QuestionType::WordToMeaning => Field::Meaning,
            QuestionType::SynonymToMeaning => Field::Meaning,
            QuestionType::AntonymToMeaning => Field::Meaning,
            QuestionType::WordToSynonym => Field::Synonym,
            QuestionType::MeaningToSynonym => Field::Synonym,
            QuestionType::AntonymToSynonym => Field::Synonym,
            QuestionType::WordToAntonym => Field::Antonym,
            QuestionType::MeaningToAntonym => Field::Antonym,
            QuestionType::SynonymToAntonym => Field::Antonym,
        }
    }

    fn lead_text(self) -> (r: &'static str)
        ensures
            r@ == self.lead(),
    {
        match self {
            QuestionType::WordToMeaning => "What is the meaning of '",
            QuestionType::MeaningToWord => "Which word means: '",
            QuestionType::WordToSynonym => "Which is a synonym of '",
            QuestionType::WordToAntonym => "Which is an antonym of '",
            QuestionType::SynonymToWord => "Which word has the synonym '",
            QuestionType::AntonymToWord => "Which word has the antonym '",
            QuestionType::SynonymToMeaning => "What is the meaning of the word with synonym '",
            QuestionType::AntonymToMeaning => "What is the meaning of the word with antonym '",
            QuestionType::MeaningToSynonym => "Which is a synonym of the word meaning: '",
            QuestionType::MeaningToAntonym => "Which is an antonym of the word meaning: '",
            QuestionType::SynonymToAntonym => "Which is an antonym of the word with synonym '",
            QuestionType::AntonymToSynonym => "Which is a synonym of the word with antonym '",
        }
    }

    fn room_for(self) -> (r: Option<usize>)
        ensures
            r is Some <==> self.room() is Some,
            r matches Some(n) ==> self.room() == Some(n as nat),
    {
        match self {
            QuestionType::MeaningToWord => Some(100),
            QuestionType::MeaningToSynonym => Some(80),
            QuestionType::MeaningToAntonym => Some(80),
            _ => None,
        }
    }
}

/// The question type that a token names, letter for letter.
pub open spec fn question_type_of(token: Seq<char>) -> Option<QuestionType> {
    if token == "word_to_meaning"@ {
        Some(QuestionType::WordToMeaning)
    } else if token == "meaning_to_word"@ {
        Some(QuestionType::MeaningToWord)
    } else if token == "word_to_synonym"@ {
        Some(QuestionType::WordToSynonym)
    } else if token == "word_to_antonym"@ {
        Some(QuestionType::WordToAntonym)
    } else if token == "synonym_to_word"@ {
        Some(QuestionType::SynonymToWord)
    } else if token == "antonym_to_word"@ {
        Some(QuestionType::AntonymToWord)
    } else if token == "synonym_to_meaning"@ {
        Some(QuestionType::SynonymToMeaning)
    } else if token == "antonym_to_meaning"@ {
        Some(QuestionType::AntonymToMeaning)
    } else if token == "meaning_to_synonym"@ {
        Some(QuestionType::MeaningToSynonym)
    } else if token == "meaning_to_antonym"@ {
        Some(QuestionType::MeaningToAntonym)
    } else if token == "synonym_to_antonym"@ {
        Some(QuestionType::SynonymToAntonym)
    } else if token == "antonym_to_synonym"@ {
        Some(QuestionType::AntonymToSynonym)
    } else {
        None
    }
}

/// The question type that a token names, if it names one.
pub fn parse_question_type(token: &str) -> (r: Option<QuestionType>)
    ensures
        r == question_type_of(token@),
{
    if same_text(token, "word_to_meaning") {
        Some(QuestionType::WordToMeaning)
    } else if same_text(token, "meaning_to_word") {
        Some(QuestionType::MeaningToWord)
    } else if same_text(token, "word_to_synonym") {
        Some(QuestionType::WordToSynonym)
    } else if same_text(token, "word_to_antonym") {
        Some(QuestionType::WordToAntonym)
    } else if same_text(token, "synonym_to_word") {
        Some(QuestionType::SynonymToWord)
    } else if same_text(token, "antonym_to_word") {
        Some(QuestionType::AntonymToWord)
    } else if same_text(token, "synonym_to_meaning") {
        Some(QuestionType::SynonymToMeaning)
    } else if same_text(token, "antonym_to_meaning") {
        Some(QuestionType::AntonymToMeaning)
    } else if same_text(token, "meaning_to_synonym") {
        Some(QuestionType::MeaningToSynonym)
    } else if same_text(token, "meaning_to_antonym") {
        Some(QuestionType::MeaningToAntonym)
    } else if same_text(token, "synonym_to_antonym") {
        Some(QuestionType::SynonymToAntonym)
    } else if same_text(token, "antonym_to_synonym") {
        Some(QuestionType::AntonymToSynonym)
    } else {
        None
    }
}

/// What a field of an entry holds.
pub open spec fn field_text(w: Word, f: Field) -> Seq<char> {
    match f {
        Field::Word => w.word@,
        Field::Meaning => w.meaning@,
        Field::Synonym => w.synonyms@,
        Field::Antonym => w.antonyms@,
    }
}

/// Whether a field of an entry may resolve to a value: a plain field to
/// what it holds, a list to any one of its items, and a list without
/// items to the empty text.
pub open spec fn may_resolve(w: Word, f: Field, value: Seq<char>) -> bool {
    if f.is_list() {
        let items = list_items(field_text(w, f));
        if items.len() == 0 {
            value.len() == 0
        } else {
            items.contains(value)
        }
    } else {
        value == field_text(w, f)
    }
}

/// Whether a field of an entry resolves to something: a plain field that
/// is not empty, a list with an item.
pub open spec fn has_value(w: Word, f: Field) -> bool {
    if f.is_list() {
        list_items(field_text(w, f)).len() > 0
    } else {
        field_text(w, f).len() > 0
    }
}

/// No item of a list is empty.
pub proof fn lemma_list_items_nonempty(s: Seq<char>, i: int)
    requires
        0 <= i < list_items(s).len(),
    ensures
        list_items(s)[i].len() > 0,
    decreases s.len(),
{
    let k = crate::text::first_comma(s);
    let head = trimmed(s.take(k));
    if 0 <= k < s.len() {
        let rest = list_items(s.skip(k + 1));
        if head.len() > 0 {
            if i > 0 {
                lemma_list_items_nonempty(s.skip(k + 1), i - 1);
            }
        } else {
            lemma_list_items_nonempty(s.skip(k + 1), i);
        }
    }
}

/// A field resolves to the empty text only where it has no value.
pub proof fn lemma_resolved_empty(w: Word, f: Field, value: Seq<char>)
    requires
        may_resolve(w, f, value),
    ensures
        value.len() > 0 <==> has_value(w, f),
{
    if f.is_list() {
        let items = list_items(field_text(w, f));
        if items.len() > 0 {
            let i = choose|i: int| 0 <= i < items.len() && items[i] == value;
            lemma_list_items_nonempty(field_text(w, f), i);
        }
    }
}

/// One item of a comma-delimited list, drawn at random; the empty string
/// where the list has no item.
pub fn get_random_item(csv: &str, rng: &mut RandomSource) -> (r: String)
    ensures
        list_items(csv@).len() == 0 ==> r@.len() == 0,
        list_items(csv@).len() > 0 ==> list_items(csv@).contains(r@),
{
    let items = split_items(csv);
    if items.len() == 0 {
        return String::new();
    }
    let i = rng.below(items.len());
    let item = items[i].clone();
    assert(texts(items@)[i as int] == item@);
    item
}

/// What a field of an entry resolves to; for a list, one item drawn at
/// random.
pub fn get_field_for_type(word: &Word, field: Field, rng: &mut RandomSource) -> (r: String)
    ensures
        may_resolve(*word, field, r@),
{
    match field {
        Field::Word => word.word.clone(),
        Field::Meaning => word.meaning.clone(),
        Field::Synonym => get_random_item(word.synonyms.as_str(), rng),
        Field::Antonym => get_random_item(word.antonyms.as_str(), rng),
    }
}

/// What the question shows of the value of its field: a meaning is cut
/// to the room that the question has.
pub open spec fn excerpt(qt: QuestionType, source: Seq<char>) -> Seq<char> {
    match qt.room() {
        Some(n) => if source.len() > n {
            source.take(n as int)
        } else {
            source
        },
        None => source,
    }
}

/// The text of a question about a value of the field that it shows.
pub open spec fn question_text(qt: QuestionType, source: Seq<char>) -> Seq<char> {
    qt.lead() + excerpt(qt, source) + "'?"@
}

/// The text of a question.
pub fn make_question_text(qt: QuestionType, source: &str) -> (r: String)
    ensures
        r@ == question_text(qt, source@),
{
    let mut text = String::from_str(qt.lead_text());
    match qt.room_for() {
        Some(n) => {
            let length = source.unicode_len();
            if length > n {
                text.append(source.substring_char(0, n));
                assert(source@.subrange(0, n as int) =~= source@.take(n as int));
            } else {
                text.append(source);
            }
        },
        None => {
            text.append(source);
        },
    }
    text.append("'?");
    text
}

/// A question with four options, one of them right.
#[derive(Debug)]
pub struct MCQQuestion {
    pub word_id: i64,
    pub question_type: String,
    pub question_text: String,
    pub options: Vec<String>,
    pub correct_index: usize,
    pub correct_answer: String,
}

impl MCQQuestion {
    /// The invariant of a question: four options, none empty, no two the
    /// same, and the right answer at `correct_index`.
    pub open spec fn well_formed(&self) -> bool {
        &&& self.options@.len() == 4
        &&& self.correct_index < 4
        &&& self.options@[self.correct_index as int]@ == self.correct_answer@
        &&& forall|i: int| 0 <= i < 4 ==> (#[trigger] self.options@[i])@.len() > 0
        &&& forall|i: int, j: int|
            0 <= i < j < 4 ==> (#[trigger] self.options@[i])@ != (#[trigger] self.options@[j])@
    }
}

/// In a well-formed question exactly one option is the right answer: the
/// one at `correct_index`.
pub proof fn lemma_one_right_option(q: MCQQuestion, i: int)
    requires
        q.well_formed(),
        0 <= i < 4,
    ensures
        q.options@[i]@ == q.correct_answer@ <==> i == q.correct_index,
{
    let c = q.correct_index as int;
    if i < c {
        assert(q.options@[i]@ != q.options@[c]@);
    } else if c < i {
        assert(q.options@[c]@ != q.options@[i]@);
    }
}

/// Whether a value can serve as a wrong option beside the answer.
pub open spec fn usable(value: Seq<char>, answer: Seq<char>) -> bool {
    value.len() > 0 && value != answer
}

/// The usable values among the candidates, each once, in the order in
/// which they first occur.
pub open spec fn unique_usable(candidates: Seq<Seq<char>>, answer: Seq<char>) -> Seq<Seq<char>>
    decreases candidates.len(),
{
    if candidates.len() == 0 {
        Seq::empty()
    } else {
        let rest = unique_usable(candidates.drop_last(), answer);
        let value = candidates.last();
        if usable(value, answer) && !rest.contains(value) {
            rest.push(value)
        } else {
            rest
        }
    }
}

/// Whether no two of the texts are the same.
pub open spec fn all_differ(s: Seq<Seq<char>>) -> bool {
    forall|i: int, j: int| 0 <= i < j < s.len() ==> #[trigger] s[i] != #[trigger] s[j]
}

/// `unique_usable` holds a value if and only if the value is a usable
/// candidate, and it holds no value twice.
pub proof fn lemma_unique_usable(candidates: Seq<Seq<char>>, answer: Seq<char>)
    ensures
        all_differ(unique_usable(candidates, answer)),
        forall|v: Seq<char>| #[trigger]
            unique_usable(candidates, answer).contains(v) <==> candidates.contains(v) && usable(
                v,
                answer,
            ),
    decreases candidates.len(),
{
    let u = unique_usable(candidates, answer);
    if candidates.len() > 0 {
        let front = candidates.drop_last();
        let rest = unique_usable(front, answer);
        let value = candidates.last();
        lemma_unique_usable(front, answer);
        assert forall|v: Seq<char>| #[trigger] u.contains(v) <==> candidates.contains(v) && usable(
            v,
            answer,
        ) by {
            if u.contains(v) {
                let i = choose|i: int| 0 <= i < u.len() && u[i] == v;
                if i < rest.len() {
                    assert(rest[i] == v);
                    assert(rest.contains(v));
                    let k = choose|k: int| 0 <= k < front.len() && front[k] == v;
                    assert(candidates[k] == v);
                } else {
                    assert(candidates[candidates.len() - 1] == v);
                }
            }
            if candidates.contains(v) && usable(v, answer) {
                let k = choose|k: int| 0 <= k < candidates.len() && candidates[k] == v;
                if k < front.len() {
                    assert(front[k] == v);
                    assert(front.contains(v));
                    assert(rest.contains(v));
                    let i = choose|i: int| 0 <= i < rest.len() && rest[i] == v;
                    assert(u[i] == v);
                } else if rest.contains(v) {
                    let i = choose|i: int| 0 <= i < rest.len() && rest[i] == v;
                    assert(u[i] == v);
                } else {
                    assert(u[rest.len() as int] == v);
                }
            }
        }
        assert forall|i: int, j: int| 0 <= i < j < u.len() implies #[trigger] u[i]
            != #[trigger] u[j] by {
            if j < rest.len() {
                assert(rest[i] != rest[j]);
            } else {
                assert(rest[i] == u[i]);
                assert(rest.contains(u[i]));
            }
        }
    } else {
        assert forall|v: Seq<char>| #[trigger] u.contains(v) <==> candidates.contains(v) && usable(
            v,
            answer,
        ) by {}
    }
}

fn holds_text(items: &Vec<String>, value: &str) -> (r: bool)
    ensures
        r == texts(items@).contains(value@),
{
    let mut i: usize = 0;
    while i < items.len()
        invariant
            i <= items.len(),
            forall|k: int| 0 <= k < i ==> texts(items@)[k] != value@,
        decreases items.len() - i,
    {
        if same_text(items[i].as_str(), value) {
            assert(texts(items@)[i as int] == value@);
            return true;
        }
        i += 1;
    }
    false
}

/// Picks three wrong options among the candidates: of the usable ones,
/// each taken once, three drawn at random. Fewer than three are an error.
pub fn choose_distractors(candidates: &Vec<String>, answer: &str, rng: &mut RandomSource) -> (r:
    Result<Vec<String>, CoreError>)
    ensures
        r is Err <==> unique_usable(texts(candidates@), answer@).len() < 3,
        r matches Err(e) ==> e.kind == ErrorKind::InsufficientDistractors && e.message@
            == "Not enough unique distractors for MCQ"@,
        r matches Ok(d) ==> {
            &&& d@.len() == 3
            &&& all_differ(texts(d@))
            &&& forall|i: int|
                0 <= i < 3 ==> unique_usable(texts(candidates@), answer@).contains(
                    #[trigger] texts(d@)[i],
                )
        },
{
    let ghost all = texts(candidates@);
    let mut pool: Vec<String> = Vec::new();
    let mut i: usize = 0;
    proof {
        assert(all.take(0) =~= Seq::<Seq<char>>::empty());
        assert(texts(pool@) =~= Seq::<Seq<char>>::empty());
    }
    while i < candidates.len()
        invariant
            i <= candidates.len(),
            all == texts(candidates@),
            texts(pool@) == unique_usable(all.take(i as int), answer@),
        decreases candidates.len() - i,
    {
        let value = &candidates[i];
        let ghost before = texts(pool@);
        proof {
            assert(all.take(i + 1).drop_last() =~= all.take(i as int));
            assert(all.take(i + 1).last() == value@);
        }
        if value.as_str().unicode_len() > 0 && !same_text(value.as_str(), answer) && !holds_text(
            &pool,
            value.as_str(),
        ) {
            pool.push(value.clone());
            assert(texts(pool@) =~= before.push(value@));
        }
        i += 1;
    }
    assert(all.take(i as int) =~= all);
    if pool.len() < 3 {
        return Err(
            CoreError::new(
                ErrorKind::InsufficientDistractors,
                "Not enough unique distractors for MCQ",
            ),
        );
    }
    let ghost kept = pool@;
    let ghost unique = unique_usable(all, answer@);
    rng.shuffle(&mut pool);
    let ghost mixed = pool@;
    proof {
        lemma_unique_usable(all, answer@);
        assert forall|a: int, b: int|
            0 <= a < kept.len() && 0 <= b < kept.len() && a != b implies kept[a]
            != kept[b] by {
            assert(texts(kept)[a] == kept[a]@);
            assert(texts(kept)[b] == kept[b]@);
            if a < b {
                assert(unique[a] != unique[b]);
            } else {
                assert(unique[b] != unique[a]);
            }
        }
        assert(kept.no_duplicates());
        kept.lemma_multiset_has_no_duplicates();
        mixed.lemma_multiset_has_no_duplicates_conv();
        assert forall|k: int| 0 <= k < mixed.len() implies kept.contains(#[trigger] mixed[k]) by {
            vstd::seq_lib::to_multiset_contains(mixed, mixed[k]);
            vstd::seq_lib::to_multiset_contains(kept, mixed[k]);
            assert(mixed.contains(mixed[k]));
        }
        assert forall|x: int, y: int| 0 <= x < y < mixed.len() implies (#[trigger] mixed[x])@ != (
        #[trigger] mixed[y])@ by {
            assert(kept.contains(mixed[x]));
            assert(kept.contains(mixed[y]));
            let a = choose|a: int| 0 <= a < kept.len() && kept[a] == mixed[x];
            let b = choose|b: int| 0 <= b < kept.len() && kept[b] == mixed[y];
            assert(texts(kept)[a] == mixed[x]@);
            assert(texts(kept)[b] == mixed[y]@);
            if a < b {
                assert(unique[a] != unique[b]);
            } else if b < a {
                assert(unique[b] != unique[a]);
            } else {
                assert(mixed[x] == mixed[y]);
            }
        }
    }
    pool.truncate(3);
    proof {
        assert forall|k: int| 0 <= k < 3 implies unique.contains(#[trigger] texts(pool@)[k]) by {
            assert(pool@[k] == mixed[k]);
            assert(kept.contains(mixed[k]));
            let a = choose|a: int| 0 <= a < kept.len() && kept[a] == mixed[k];
            assert(texts(kept)[a] == mixed[k]@);
            assert(unique[a] == mixed[k]@);
        }
        assert forall|x: int, y: int| 0 <= x < y < 3 implies #[trigger] texts(pool@)[x]
            != #[trigger] texts(pool@)[y] by {
            assert(pool@[x] == mixed[x]);
            assert(pool@[y] == mixed[y]);
        }
    }
    Ok(pool)
}

/// Whether the candidates are one value for each entry other than the
/// one asked about, in the order of the entries, each a value that the
/// field of its entry may resolve to.
pub open spec fn drawn_from(words: Seq<Word>, word_id: int, f: Field, c: Seq<Seq<char>>) -> bool
    decreases words.len(),
{
    if words.len() == 0 {
        c.len() == 0
    } else if words.last().id == word_id {
        drawn_from(words.drop_last(), word_id, f, c)
    } else {
        &&& c.len() > 0
        &&& may_resolve(words.last(), f, c.last())
        &&& drawn_from(words.drop_last(), word_id, f, c.drop_last())
    }
}

/// What a field holds in each entry other than the one asked about, in
/// the order of the entries.
pub open spec fn other_values(words: Seq<Word>, word_id: int, f: Field) -> Seq<Seq<char>>
    decreases words.len(),
{
    if words.len() == 0 {
        Seq::empty()
    } else if words.last().id == word_id {
        other_values(words.drop_last(), word_id, f)
    } else {
        other_values(words.drop_last(), word_id, f).push(field_text(words.last(), f))
    }
}

/// Whether a value is one that the field of some other entry may resolve
/// to.
pub open spec fn is_distractor(words: Seq<Word>, word_id: int, f: Field, value: Seq<char>) -> bool {
    exists|k: int|
        0 <= k < words.len() && (#[trigger] words[k]).id != word_id && may_resolve(
            words[k],
            f,
            value,
        )
}

/// For a plain field nothing is drawn: the candidates are what the field
/// holds in the other entries.
pub proof fn lemma_drawn_plain(words: Seq<Word>, word_id: int, f: Field, c: Seq<Seq<char>>)
    requires
        !f.is_list(),
        drawn_from(words, word_id, f, c),
    ensures
        c == other_values(words, word_id, f),
    decreases words.len(),
{
    if words.len() == 0 {
        assert(c =~= Seq::<Seq<char>>::empty());
    } else if words.last().id == word_id {
        lemma_drawn_plain(words.drop_last(), word_id, f, c);
    } else {
        lemma_drawn_plain(words.drop_last(), word_id, f, c.drop_last());
        assert(c =~= c.drop_last().push(c.last()));
    }
}

/// Every candidate is a value of some other entry.
pub proof fn lemma_drawn_member(
    words: Seq<Word>,
    word_id: int,
    f: Field,
    c: Seq<Seq<char>>,
    value: Seq<char>,
)
    requires
        drawn_from(words, word_id, f, c),
        c.contains(value),
    ensures
        is_distractor(words, word_id, f, value),
    decreases words.len(),
{
    if words.len() > 0 {
        let front = words.drop_last();
        if words.last().id == word_id {
            lemma_drawn_member(front, word_id, f, c, value);
            let k = choose|k: int|
                0 <= k < front.len() && (#[trigger] front[k]).id != word_id && may_resolve(
                    front[k],
                    f,
                    value,
                );
            assert(words[k] == front[k]);
        } else {
            let i = choose|i: int| 0 <= i < c.len() && c[i] == value;
            if i == c.len() - 1 {
                assert(words[words.len() - 1].id != word_id);
            } else {
                assert(c.drop_last()[i] == value);
                lemma_drawn_member(front, word_id, f, c.drop_last(), value);
                let k = choose|k: int|
                    0 <= k < front.len() && (#[trigger] front[k]).id != word_id && may_resolve(
                        front[k],
                        f,
                        value,
                    );
                assert(words[k] == front[k]);
            }
        }
    }
}

/// Every other entry has a candidate.
pub proof fn lemma_drawn_for_each(
    words: Seq<Word>,
    word_id: int,
    f: Field,
    c: Seq<Seq<char>>,
    k: int,
)
    requires
        drawn_from(words, word_id, f, c),
        0 <= k < words.len(),
        words[k].id != word_id,
    ensures
        exists|j: int| 0 <= j < c.len() && may_resolve(words[k], f, #[trigger] c[j]),
    decreases words.len(),
{
    let front = words.drop_last();
    if words.last().id == word_id {
        assert(front[k] == words[k]);
        lemma_drawn_for_each(front, word_id, f, c, k);
    } else if k == words.len() - 1 {
        assert(may_resolve(words[k], f, c[c.len() - 1]));
    } else {
        assert(front[k] == words[k]);
        lemma_drawn_for_each(front, word_id, f, c.drop_last(), k);
        let j = choose|j: int|
            0 <= j < c.drop_last().len() && may_resolve(words[k], f, #[trigger] c.drop_last()[j]);
        assert(c[j] == c.drop_last()[j]);
    }
}

/// Whether the field has no value in common in the two entries.
pub open spec fn apart(x: Word, y: Word, f: Field) -> bool {
    forall|v: Seq<char>| !(#[trigger] may_resolve(x, f, v) && may_resolve(y, f, v))
}

/// Whether three other entries have values in the field that no draw can
/// make alike, nor like the answer: each of the three has a value, and
/// no two of the three and the entry asked about have a value in common.
pub open spec fn enough_distractors(words: Seq<Word>, target: Word, f: Field) -> bool {
    exists|a: int, b: int, c: int|
        {
            &&& 0 <= a < b < c < words.len()
            &&& (#[trigger] words[a]).id != target.id
            &&& (#[trigger] words[b]).id != target.id
            &&& (#[trigger] words[c]).id != target.id
            &&& has_value(words[a], f) && has_value(words[b], f) && has_value(words[c], f)
            &&& apart(words[a], words[b], f) && apart(words[a], words[c], f) && apart(
                words[b],
                words[c],
                f,
            )
            &&& apart(words[a], target, f) && apart(words[b], target, f) && apart(
                words[c],
                target,
                f,
            )
        }
}

/// Where three entries are far enough apart, every draw leaves three
/// usable values.
pub proof fn lemma_enough_distractors(
    words: Seq<Word>,
    target: Word,
    f: Field,
    c: Seq<Seq<char>>,
    answer: Seq<char>,
)
    requires
        enough_distractors(words, target, f),
        drawn_from(words, target.id as int, f, c),
        may_resolve(target, f, answer),
    ensures
        unique_usable(c, answer).len() >= 3,
{
    let (a, b, d) = choose|a: int, b: int, d: int|
        {
            &&& 0 <= a < b < d < words.len()
            &&& (#[trigger] words[a]).id != target.id
            &&& (#[trigger] words[b]).id != target.id
            &&& (#[trigger] words[d]).id != target.id
            &&& has_value(words[a], f) && has_value(words[b], f) && has_value(words[d], f)
            &&& apart(words[a], words[b], f) && apart(words[a], words[d], f) && apart(
                words[b],
                words[d],
                f,
            )
            &&& apart(words[a], target, f) && apart(words[b], target, f) && apart(
                words[d],
                target,
                f,
            )
        };
    lemma_drawn_for_each(words, target.id as int, f, c, a);
    lemma_drawn_for_each(words, target.id as int, f, c, b);
    lemma_drawn_for_each(words, target.id as int, f, c, d);
    let ja = choose|j: int| 0 <= j < c.len() && may_resolve(words[a], f, #[trigger] c[j]);
    let jb = choose|j: int| 0 <= j < c.len() && may_resolve(words[b], f, #[trigger] c[j]);
    let jd = choose|j: int| 0 <= j < c.len() && may_resolve(words[d], f, #[trigger] c[j]);
    let (x, y, z) = (c[ja], c[jb], c[jd]);
    lemma_resolved_empty(words[a], f, x);
    lemma_resolved_empty(words[b], f, y);
    lemma_resolved_empty(words[d], f, z);
    assert(x != y && x != z && y != z);
    assert(x != answer && y != answer && z != answer);
    let u = unique_usable(c, answer);
    lemma_unique_usable(c, answer);
    assert(c.contains(x) && c.contains(y) && c.contains(z));
    assert(u.contains(x) && u.contains(y) && u.contains(z));
    let ix = choose|i: int| 0 <= i < u.len() && u[i] == x;
    let iy = choose|i: int| 0 <= i < u.len() && u[i] == y;
    let iz = choose|i: int| 0 <= i < u.len() && u[i] == z;
    assert(ix != iy && ix != iz && iy != iz);
}

/// One candidate for each entry other than the one asked about: what the
/// field of that entry resolves to.
pub fn collect_candidates(
    store: &Store,
    word_id: i64,
    field: Field,
    rng: &mut RandomSource,
) -> (out: Vec<String>)
    ensures
        drawn_from(store@.words, word_id as int, field, texts(out@)),
{
    let words = store.entries();
    let mut out: Vec<String> = Vec::new();
    let mut i: usize = 0;
    proof {
        assert(words@.take(0) =~= Seq::<Word>::empty());
        assert(texts(out@) =~= Seq::<Seq<char>>::empty());
    }
    while i < words.len()
        invariant
            i <= words.len(),
            drawn_from(words@.take(i as int), word_id as int, field, texts(out@)),
        decreases words.len() - i,
    {
        let ghost before = texts(out@);
        proof {
            assert(words@.take(i + 1).drop_last() =~= words@.take(i as int));
            assert(words@.take(i + 1).last() == words@[i as int]);
        }
        if words[i].id != word_id {
            let value = get_field_for_type(&words[i], field, rng);
            out.push(value);
            proof {
                assert(texts(out@).drop_last() =~= before);
                assert(texts(out@).last() == value@);
            }
        }
        i += 1;
    }
    assert(words@.take(i as int) =~= words@);
    out
}

/// Puts the right answer among three wrong options, at the given place.
fn assemble(
    word_id: i64,
    question_type: &str,
    question_text: String,
    correct_answer: String,
    distractors: Vec<String>,
    correct_index: usize,
) -> (q: MCQQuestion)
    requires
        distractors@.len() == 3,
        correct_index <= 3,
        correct_answer@.len() > 0,
        all_differ(texts(distractors@)),
        forall|i: int| 0 <= i < 3 ==> usable(#[trigger] texts(distractors@)[i], correct_answer@),
    ensures
        q.well_formed(),
        q.word_id == word_id,
        q.question_type@ == question_type@,
        q.question_text == question_text,
        q.correct_answer == correct_answer,
        q.correct_index == correct_index,
        q.options@ == distractors@.insert(correct_index as int, correct_answer),
{
    let mut options = distractors;
    options.insert(correct_index, correct_answer.clone());
    let q = MCQQuestion {
        word_id,
        question_type: String::from_str(question_type),
        question_text,
        options,
        correct_index,
        correct_answer,
    };
    proof {
        let d = texts(distractors@);
        let c = correct_index as int;
        assert forall|i: int| 0 <= i < 4 implies (#[trigger] q.options@[i])@.len() > 0 by {
            if i < c {
                assert(q.options@[i]@ == d[i]);
            } else if i > c {
                assert(q.options@[i]@ == d[i - 1]);
            }
        }
        assert forall|i: int, j: int| 0 <= i < j < 4 implies (#[trigger] q.options@[i])@ != (
        #[trigger] q.options@[j])@ by {
            if i < c {
                assert(q.options@[i]@ == d[i]);
            } else if i > c {
                assert(q.options@[i]@ == d[i - 1]);
            }
            if j < c {
                assert(q.options@[j]@ == d[j]);
            } else if j > c {
                assert(q.options@[j]@ == d[j - 1]);
            }
        }
    }
    q
}

/// Whether a question is one about the given entry: the answer is a
/// value of the field asked for, the text shows a value of the field
/// shown, and each wrong option is a value of some other entry.
pub open spec fn describes(
    q: MCQQuestion,
    words: Seq<Word>,
    target: Word,
    qt: QuestionType,
) -> bool {
    &&& q.well_formed()
    &&& q.word_id == target.id
    &&& may_resolve(target, qt.asked(), q.correct_answer@)
    &&& exists|source: Seq<char>| #[trigger]
        may_resolve(target, qt.shown(), source) && q.question_text@ == question_text(qt, source)
    &&& forall|i: int|
        0 <= i < 4 && i != q.correct_index ==> is_distractor(
            words,
            target.id as int,
            qt.asked(),
            (#[trigger] q.options@[i])@,
        )
}

/// Whether an outcome is one that some draw of the candidates and of the
/// answer explains: it is a question exactly where three usable values
/// are among the candidates, and the question's wrong options are of
/// those.
pub open spec fn explained(
    r: Result<MCQQuestion, CoreError>,
    words: Seq<Word>,
    target: Word,
    qt: QuestionType,
) -> bool {
    exists|c: Seq<Seq<char>>, answer: Seq<char>|
        {
            &&& #[trigger] drawn_from(words, target.id as int, qt.asked(), c)
            &&& #[trigger] may_resolve(target, qt.asked(), answer)
            &&& r is Ok <==> unique_usable(c, answer).len() >= 3
            &&& r matches Ok(q) ==> {
                &&& q.correct_answer@ == answer
                &&& forall|i: int|
                    0 <= i < 4 && i != q.correct_index ==> unique_usable(c, answer).contains(
                        (#[trigger] q.options@[i])@,
                    )
            }
        }
}

/// Builds a question about an entry of the store.
///
/// The entry must be in the store, the store must hold four entries or
/// more, the token must name a question type, and the entry must have a
/// value in the field asked for: these are tested in that order. The
/// wrong options are values of the same field of other entries.
pub fn generate_mcq(store: &Store, word_id: i64, question_type: &str, rng: &mut RandomSource) -> (r:
    Result<MCQQuestion, CoreError>)
    requires
        store.wf(),
    ensures
        match find_word(store@.words, word_id as int) {
            None => r matches Err(e) && e.kind == ErrorKind::NotFound && e.message@
                == "Word not found"@,
            Some(target) => if store@.words.len() < 4 {
                r matches Err(e) && e.kind == ErrorKind::InsufficientData && e.message@
                    == "Not enough words for MCQ generation (need at least 4)"@
            } else {
                match question_type_of(question_type@) {
                    None => r matches Err(e) && e.kind == ErrorKind::Input && e.message@
                        == "Unknown question type: "@ + question_type@,
                    Some(qt) => if !has_value(target, qt.asked()) {
                        r matches Err(e) && e.kind == ErrorKind::MissingData && e.message@
                            == "Missing data for question type: "@ + question_type@
                    } else {
                        &&& r matches Err(e) ==> e.kind == ErrorKind::InsufficientDistractors
                            && e.message@ == "Not enough unique distractors for MCQ"@
                        &&& r matches Ok(q) ==> describes(q, store@.words, target, qt)
                            && q.question_type@ == question_type@
                        &&& explained(r, store@.words, target, qt)
                        &&& !qt.asked().is_list() ==> (r is Ok <==> unique_usable(
                            other_values(store@.words, word_id as int, qt.asked()),
                            field_text(target, qt.asked()),
                        ).len() >= 3)
                        &&& enough_distractors(store@.words, target, qt.asked()) ==> r is Ok
                    },
                }
            },
        },
{
    let target = match get_word_by_id(store, word_id) {
        Some(w) => w,
        None => {
            return Err(CoreError::new(ErrorKind::NotFound, "Word not found"));
        },
    };
    if store.word_count() < 4 {
        return Err(
            CoreError::new(
                ErrorKind::InsufficientData,
                "Not enough words for MCQ generation (need at least 4)",
            ),
        );
    }
    let qt = match parse_question_type(question_type) {
        Some(qt) => qt,
        None => {
            return Err(
                CoreError::with_detail(ErrorKind::Input, "Unknown question type: ", question_type),
            );
        },
    };
    let source = get_field_for_type(&target, qt.shown_field(), rng);
    let text = make_question_text(qt, source.as_str());
    let answer = get_field_for_type(&target, qt.asked_field(), rng);
    proof {
        lemma_resolved_empty(target, qt.asked(), answer@);
    }
    if answer.as_str().unicode_len() == 0 {
        return Err(
            CoreError::with_detail(
                ErrorKind::MissingData,
                "Missing data for question type: ",
                question_type,
            ),
        );
    }
    let candidates = collect_candidates(store, word_id, qt.asked_field(), rng);
    let ghost c = texts(candidates@);
    proof {
        lemma_unique_usable(c, answer@);
        if !qt.asked().is_list() {
            lemma_drawn_plain(store@.words, word_id as int, qt.asked(), c);
        }
        if enough_distractors(store@.words, target, qt.asked()) {
            lemma_enough_distractors(store@.words, target, qt.asked(), c, answer@);
        }
    }
    let distractors = match choose_distractors(&candidates, answer.as_str(), rng) {
        Ok(d) => d,
        Err(e) => {
            let r: Result<MCQQuestion, CoreError> = Err(e);
            assert(explained(r, store@.words, target, qt)) by {
                assert(drawn_from(store@.words, target.id as int, qt.asked(), c));
                assert(may_resolve(target, qt.asked(), answer@));
            }
            return r;
        },
    };
    let correct_index = rng.below(4);
    let ghost d = texts(distractors@);
    proof {
        assert forall|i: int| 0 <= i < 3 implies usable(#[trigger] d[i], answer@) by {
            assert(unique_usable(c, answer@).contains(d[i]));
        }
    }
    let q = assemble(word_id, question_type, text, answer, distractors, correct_index);
    proof {
        let ci = correct_index as int;
        assert forall|i: int| 0 <= i < 4 && i != q.correct_index implies unique_usable(
            c,
            answer@,
        ).contains((#[trigger] q.options@[i])@) && is_distractor(
            store@.words,
            target.id as int,
            qt.asked(),
            q.options@[i]@,
        ) by {
            if i < ci {
                assert(q.options@[i]@ == d[i]);
                assert(unique_usable(c, answer@).contains(d[i]));
            } else {
                assert(q.options@[i]@ == d[i - 1]);
                assert(unique_usable(c, answer@).contains(d[i - 1]));
            }
            lemma_drawn_member(store@.words, word_id as int, qt.asked(), c, q.options@[i]@);
        }
        assert(may_resolve(target, qt.shown(), source@) && q.question_text@ == question_text(
            qt,
            source@,
        ));
        let r: Result<MCQQuestion, CoreError> = Ok(q);
        assert(explained(r, store@.words, target, qt)) by {
            assert(drawn_from(store@.words, target.id as int, qt.asked(), c));
            assert(may_resolve(target, qt.asked(), answer@));
        }
    }
    Ok(q)
}

} // verus!
