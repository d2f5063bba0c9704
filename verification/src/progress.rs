//! The attempt log and what is drawn from it: the words that were failed
//! most often, and the share of right answers.

use crate::db::{lemma_attempt_ids_bound, word_ids_ordered, Attempt, Store, Word};
use crate::error::{CoreError, ErrorKind};
use vstd::prelude::*;
use vstd::string::*;

verus! {

/// One unit, in the fixed-point numbers of this crate: they count
/// millionths.
pub const SCALE: u64 = 1_000_000;

/// The share of right answers among all attempts.
#[derive(Clone, Copy, Debug, PartialEq, Eq, Structural)]
pub struct AttemptStats {
    pub total_attempts: i64,
    pub correct_count: i64,
    pub incorrect_count: i64,
    /// In millionths of a percent: `100 * SCALE` where every answer was
    /// right.
    pub accuracy_percent: u64,
}

/// `std::time::SystemTime::elapsed` on the Unix epoch: the time that the
/// clock shows, in whole seconds since the epoch, or nothing where the
/// clock stands before the epoch. Nothing is claimed of the time.
#[verifier::external_body]
fn clock_seconds() -> Option<u64> {
    match std::time::UNIX_EPOCH.elapsed() {
        Ok(since) => Some(since.as_secs()),
        Err(_) => None,
    }
}

/// Records one answer at the end of the log, with the time that the
/// clock shows. Whether the store holds the entry that `word_id` names
/// is not asked.
pub fn save_attempt(
    store: &mut Store,
    word_id: i64,
    mode: &str,
    question_type: &str,
    is_correct: bool,
    user_answer: &str,
    expected_answer: &str,
    time_taken_ms: Option<i64>,
) -> (r: Result<(), CoreError>)
    requires
        old(store).wf(),
    ensures
        final(store).wf(),
        r is Err <==> old(store)@.next_attempt_id == i64::MAX,
        r matches Err(e) ==> e.kind == ErrorKind::Storage && e.message@
            == "The store has no identifier left"@ && final(store)@ == old(store)@,
        r is Ok ==> {
            &&& final(store)@.words == old(store)@.words
            &&& final(store)@.next_word_id == old(store)@.next_word_id
            &&& final(store)@.next_attempt_id == old(store)@.next_attempt_id + 1
            &&& final(store)@.attempts.len() == old(store)@.attempts.len() + 1
            &&& final(store)@.attempts.drop_last() == old(store)@.attempts
            &&& ({
                let a = final(store)@.attempts.last();
                &&& a.id == old(store)@.next_attempt_id
                &&& a.word_id == word_id
                &&& a.mode@ == mode@
                &&& a.question_type@ == question_type@
                &&& a.is_correct == is_correct
                &&& a.user_answer@ == user_answer@
                &&& a.expected_answer@ == expected_answer@
                &&& a.time_taken_ms == time_taken_ms
            })
        },
{
    let attempt = Attempt {
        id: 0,
        word_id,
        mode: String::from_str(mode),
        question_type: String::from_str(question_type),
        is_correct,
        user_answer: String::from_str(user_answer),
        expected_answer: String::from_str(expected_answer),
        time_taken_ms,
        timestamp: clock_seconds(),
    };
    let ghost before = store@.attempts;
    match store.append_attempt(attempt) {
        Ok(_) => {
            assert(store@.attempts.drop_last() =~= before);
            Ok(())
        },
        Err(e) => Err(e),
    }
}

/// How many of the attempts were right.
pub open spec fn correct_among(attempts: Seq<Attempt>) -> nat
    decreases attempts.len(),
{
    if attempts.len() == 0 {
        0
    } else {
        correct_among(attempts.drop_last()) + if attempts.last().is_correct {
            1nat
        } else {
            0nat
        }
    }
}

/// How many wrong answers the log holds for an entry.
pub open spec fn failures(attempts: Seq<Attempt>, word_id: int) -> nat
    decreases attempts.len(),
{
    if attempts.len() == 0 {
        0
    } else {
        failures(attempts.drop_last(), word_id) + if attempts.last().word_id == word_id
            && !attempts.last().is_correct {
            1nat
        } else {
            0nat
        }
    }
}

/// The accuracy, in millionths of a percent, of `correct` right answers
/// among `total`; zero where there is no answer.
pub open spec fn accuracy(correct: int, total: int) -> int {
    if total > 0 {
        (100 * SCALE * correct) / total
    } else {
        0
    }
}

proof fn lemma_correct_bound(attempts: Seq<Attempt>)
    ensures
        correct_among(attempts) <= attempts.len(),
    decreases attempts.len(),
{
    if attempts.len() > 0 {
        lemma_correct_bound(attempts.drop_last());
    }
}

proof fn lemma_failures_bound(attempts: Seq<Attempt>, word_id: int)
    ensures
        failures(attempts, word_id) <= attempts.len(),
    decreases attempts.len(),
{
    if attempts.len() > 0 {
        lemma_failures_bound(attempts.drop_last(), word_id);
    }
}

proof fn lemma_log_bound(store: &Store)
    requires
        store.wf(),
    ensures
        store@.attempts.len() < i64::MAX,
{
    let n = store@.attempts.len();
    if n > 0 {
        lemma_attempt_ids_bound(store@.attempts, store@.next_attempt_id, n - 1);
    }
}

/// The statistics of the whole log.
pub fn get_stats(store: &Store) -> (s: AttemptStats)
    requires
        store.wf(),
    ensures
        s.total_attempts == store@.attempts.len(),
        s.correct_count == correct_among(store@.attempts),
        s.incorrect_count == s.total_attempts - s.correct_count,
        s.accuracy_percent == accuracy(s.correct_count as int, s.total_attempts as int),
        store@.attempts.len() == 0 ==> s == (AttemptStats {
            total_attempts: 0,
            correct_count: 0,
            incorrect_count: 0,
            accuracy_percent: 0,
        }),
{
    let log = store.attempts();
    proof {
        lemma_log_bound(store);
    }
    let mut correct: i64 = 0;
    let mut i: usize = 0;
    assert(log@.take(0) =~= Seq::<Attempt>::empty());
    while i < log.len()
        invariant
            i <= log.len(),
            log@.len() < i64::MAX,
            correct == correct_among(log@.take(i as int)),
            correct <= i,
        decreases log.len() - i,
    {
        assert(log@.take(i + 1).drop_last() =~= log@.take(i as int));
        if log[i].is_correct {
            correct += 1;
        }
        i += 1;
    }
    assert(log@.take(i as int) =~= log@);
    let total: i64 = log.len() as i64;
    let accuracy_percent: u64 = if total > 0 {
        let scaled: u128 = 100 * (SCALE as u128) * (correct as u128);
        assert(scaled / (total as u128) <= 100 * SCALE) by (nonlinear_arith)
            requires
                scaled == 100 * SCALE * correct,
                0 <= correct <= total,
                total > 0,
        ;
        (scaled / (total as u128)) as u64
    } else {
        0
    };
    AttemptStats {
        total_attempts: total,
        correct_count: correct,
        incorrect_count: total - correct,
        accuracy_percent,
    }
}

/// The entries with at least one wrong answer, in the order of the store,
/// each with the number of its wrong answers.
pub open spec fn failing(words: Seq<Word>, attempts: Seq<Attempt>) -> Seq<(Word, i64)>
    decreases words.len(),
{
    if words.len() == 0 {
        Seq::empty()
    } else {
        let rest = failing(words.drop_last(), attempts);
        let count = failures(attempts, words.last().id as int);
        if count > 0 {
            rest.push((words.last(), count as i64))
        } else {
            rest
        }
    }
}

/// Whether the counts descend along the sequence.
pub open spec fn ranked(s: Seq<(Word, i64)>) -> bool {
    forall|i: int, j: int| 0 <= i < j < s.len() ==> (#[trigger] s[i]).1 >= (#[trigger] s[j]).1
}

/// The length of a list cut at a limit, where there is one.
pub open spec fn capped(len: nat, limit: Option<usize>) -> nat {
    match limit {
        Some(l) => if l < len {
            l as nat
        } else {
            len
        },
        None => len,
    }
}

/// What `failing` lists: an entry of the store is listed, with its number
/// of wrong answers, if and only if that number is not zero.
pub proof fn lemma_failing_lists(words: Seq<Word>, attempts: Seq<Attempt>, p: (Word, i64))
    requires
        attempts.len() < i64::MAX,
    ensures
        failing(words, attempts).contains(p) <==> words.contains(p.0) && p.1 == failures(
            attempts,
            p.0.id as int,
        ) && p.1 > 0,
    decreases words.len(),
{
    let f = failing(words, attempts);
    if words.len() > 0 {
        let rest = words.drop_last();
        let last = words.last();
        let fr = failing(rest, attempts);
        let count = failures(attempts, last.id as int);
        lemma_failing_lists(rest, attempts, p);
        lemma_failures_bound(attempts, last.id as int);
        lemma_failures_bound(attempts, p.0.id as int);
        if f.contains(p) {
            let i = choose|i: int| 0 <= i < f.len() && f[i] == p;
            if count > 0 && i == fr.len() {
                assert(words[words.len() - 1] == p.0);
            } else {
                assert(fr[i] == p);
                assert(fr.contains(p));
                let k = choose|k: int| 0 <= k < rest.len() && rest[k] == p.0;
                assert(words[k] == p.0);
            }
        }
        if words.contains(p.0) && p.1 == failures(attempts, p.0.id as int) && p.1 > 0 {
            let k = choose|k: int| 0 <= k < words.len() && words[k] == p.0;
            if k == words.len() - 1 {
                assert(f[fr.len() as int] == p);
            } else {
                assert(rest[k] == p.0);
                assert(rest.contains(p.0));
                let i = choose|i: int| 0 <= i < fr.len() && fr[i] == p;
                assert(f[i] == p);
            }
        }
    }
}

/// `failing` lists no entry twice: the identifiers in it grow along the
/// sequence, as they do in the store.
pub proof fn lemma_failing_ids_grow(words: Seq<Word>, attempts: Seq<Attempt>, next: int)
    requires
        word_ids_ordered(words, next),
    ensures
        forall|i: int|
            0 <= i < failing(words, attempts).len() ==> (#[trigger] failing(
                words,
                attempts,
            )[i]).0.id < next,
        forall|i: int, j: int|
            0 <= i < j < failing(words, attempts).len() ==> (#[trigger] failing(
                words,
                attempts,
            )[i]).0.id < (#[trigger] failing(words, attempts)[j]).0.id,
    decreases words.len(),
{
    if words.len() > 0 {
        let front = words.drop_last();
        let last = words.last();
        assert forall|i: int| 0 <= i < front.len() implies 1 <= (#[trigger] front[i]).id
            < last.id by {
            assert(front[i] == words[i]);
            assert(words[i].id < words[words.len() - 1].id);
        }
        assert forall|i: int, j: int| 0 <= i < j < front.len() implies (#[trigger] front[i]).id < (
        #[trigger] front[j]).id by {
            assert(front[i] == words[i]);
            assert(front[j] == words[j]);
        }
        lemma_failing_ids_grow(front, attempts, last.id as int);
        assert(words[words.len() - 1].id < next);
        let f = failing(words, attempts);
        let fr = failing(front, attempts);
        assert forall|i: int| 0 <= i < f.len() implies (#[trigger] f[i]).0.id < next by {
            if i < fr.len() {
                assert(f[i] == fr[i]);
            }
        }
        assert forall|i: int, j: int| 0 <= i < j < f.len() implies (#[trigger] f[i]).0.id < (
        #[trigger] f[j]).0.id by {
            assert(f[i] == fr[i]);
            if j < fr.len() {
                assert(f[j] == fr[j]);
            }
        }
    }
}

fn count_failures(log: &Vec<Attempt>, word_id: i64) -> (count: i64)
    requires
        log@.len() < i64::MAX,
    ensures
        count == failures(log@, word_id as int),
{
    let mut count: i64 = 0;
    let mut i: usize = 0;
    assert(log@.take(0) =~= Seq::<Attempt>::empty());
    while i < log.len()
        invariant
            i <= log.len(),
            log@.len() < i64::MAX,
            count == failures(log@.take(i as int), word_id as int),
            count <= i,
        decreases log.len() - i,
    {
        assert(log@.take(i + 1).drop_last() =~= log@.take(i as int));
        if log[i].word_id == word_id && !log[i].is_correct {
            count += 1;
        }
        i += 1;
    }
    assert(log@.take(i as int) =~= log@);
    count
}

/// Sorts by the number of wrong answers, the highest first.
fn rank(items: Vec<(Word, i64)>) -> (out: Vec<(Word, i64)>)
    ensures
        out@.to_multiset() == items@.to_multiset(),
        ranked(out@),
{
    let mut out: Vec<(Word, i64)> = Vec::new();
    let mut i: usize = 0;
    assert(items@.take(0) =~= Seq::<(Word, i64)>::empty());
    while i < items.len()
        invariant
            i <= items.len(),
            out@.to_multiset() == items@.take(i as int).to_multiset(),
            ranked(out@),
        decreases items.len() - i,
    {
        let item = (items[i].0.clone(), items[i].1);
        assert(item == items@[i as int]);
        let mut pos: usize = out.len();
        while pos > 0 && out[pos - 1].1 < item.1
            invariant
                pos <= out.len(),
                forall|k: int| pos <= k < out.len() ==> item.1 >= (#[trigger] out@[k]).1,
            decreases pos,
        {
            pos -= 1;
        }
        let ghost before = out@;
        proof {
            assert forall|k: int| 0 <= k < pos implies (#[trigger] before[k]).1 >= item.1 by {
                if k < pos - 1 {
                    assert(before[k].1 >= before[pos - 1].1);
                }
            }
        }
        out.insert(pos, item);
        proof {
            vstd::seq_lib::to_multiset_insert(before, pos as int, item);
            vstd::seq_lib::to_multiset_build(items@.take(i as int), item);
            assert(items@.take(i as int).push(item) =~= items@.take(i + 1));
            assert forall|a: int, b: int| 0 <= a < b < out@.len() implies (#[trigger] out@[a]).1
                >= (#[trigger] out@[b]).1 by {
                if a < pos {
                    assert(out@[a] == before[a]);
                } else if a > pos {
                    assert(out@[a] == before[a - 1]);
                }
                if b < pos {
                    assert(out@[b] == before[b]);
                } else if b > pos {
                    assert(out@[b] == before[b - 1]);
                }
            }
        }
        i += 1;
    }
    assert(items@.take(i as int) =~= items@);
    out
}

/// The entries that were answered wrongly, those failed most often first,
/// each with the number of its wrong answers; at most `limit` of them
/// where a limit is given. An entry that is not among them was failed no
/// more often than any that is.
pub fn get_failed_words(store: &Store, limit: Option<usize>) -> (r: Vec<(Word, i64)>)
    requires
        store.wf(),
    ensures
        ranked(r@),
        r@.len() == capped(failing(store@.words, store@.attempts).len(), limit),
        r@.to_multiset().subset_of(failing(store@.words, store@.attempts).to_multiset()),
        forall|k: int|
            0 <= k < r@.len() ==> {
                &&& store@.words.contains((#[trigger] r@[k]).0)
                &&& r@[k].1 == failures(store@.attempts, r@[k].0.id as int)
                &&& r@[k].1 > 0
            },
        forall|i: int, j: int|
            0 <= i < r@.len() && 0 <= j < r@.len() && i != j ==> (#[trigger] r@[i]).0.id != (
            #[trigger] r@[j]).0.id,
        forall|p: (Word, i64), k: int|
            #![trigger r@.to_multiset().count(p), r@[k]]
            failing(store@.words, store@.attempts).to_multiset().count(p) > r@.to_multiset().count(
                p,
            ) && 0 <= k < r@.len() ==> r@[k].1 >= p.1,
{
    let words = store.entries();
    let log = store.attempts();
    proof {
        lemma_log_bound(store);
    }
    let mut found: Vec<(Word, i64)> = Vec::new();
    let mut i: usize = 0;
    assert(words@.take(0) =~= Seq::<Word>::empty());
    while i < words.len()
        invariant
            i <= words.len(),
            log@.len() < i64::MAX,
            found@ == failing(words@.take(i as int), log@),
        decreases words.len() - i,
    {
        assert(words@.take(i + 1).drop_last() =~= words@.take(i as int));
        let count = count_failures(log, words[i].id);
        if count > 0 {
            found.push((words[i].clone(), count));
        }
        i += 1;
    }
    assert(words@.take(i as int) =~= words@);
    let ghost listed = found@;
    let mut sorted = rank(found);
    let ghost full = sorted@;
    proof {
        vstd::seq_lib::to_multiset_len(full);
        vstd::seq_lib::to_multiset_len(listed);
    }
    match limit {
        Some(l) => {
            if l < sorted.len() {
                sorted.truncate(l);
            }
        },
        None => {},
    }
    proof {
        let n = sorted@.len() as int;
        let tail = full.skip(n);
        assert(sorted@ =~= full.take(n));
        assert(full =~= sorted@ + tail);
        vstd::seq_lib::lemma_multiset_commutative(sorted@, tail);
        assert forall|k: int| 0 <= k < sorted@.len() implies {
            &&& words@.contains((#[trigger] sorted@[k]).0)
            &&& sorted@[k].1 == failures(log@, sorted@[k].0.id as int)
            &&& sorted@[k].1 > 0
        } by {
            let p = sorted@[k];
            assert(full[k] == p);
            assert(full.contains(p));
            vstd::seq_lib::to_multiset_contains(full, p);
            vstd::seq_lib::to_multiset_contains(listed, p);
            lemma_failing_lists(words@, log@, p);
        }
        lemma_failing_ids_grow(words@, log@, store@.next_word_id);
        assert(listed.no_duplicates()) by {
            assert forall|a: int, b: int|
                0 <= a < listed.len() && 0 <= b < listed.len() && a != b implies listed[a]
                != listed[b] by {
                if a < b {
                    assert(listed[a].0.id < listed[b].0.id);
                } else {
                    assert(listed[b].0.id < listed[a].0.id);
                }
            }
        }
        listed.lemma_multiset_has_no_duplicates();
        full.lemma_multiset_has_no_duplicates_conv();
        assert forall|i: int, j: int|
            0 <= i < sorted@.len() && 0 <= j < sorted@.len() && i != j implies (
        #[trigger] sorted@[i]).0.id != (#[trigger] sorted@[j]).0.id by {
            let p = sorted@[i];
            let q = sorted@[j];
            assert(full[i] == p && full[j] == q);
            assert(p != q);
            assert(full.contains(p) && full.contains(q));
            vstd::seq_lib::to_multiset_contains(full, p);
            vstd::seq_lib::to_multiset_contains(listed, p);
            vstd::seq_lib::to_multiset_contains(full, q);
            vstd::seq_lib::to_multiset_contains(listed, q);
            let a = choose|a: int| 0 <= a < listed.len() && listed[a] == p;
            let b = choose|b: int| 0 <= b < listed.len() && listed[b] == q;
            if a < b {
                assert(listed[a].0.id < listed[b].0.id);
            } else if b < a {
                assert(listed[b].0.id < listed[a].0.id);
            }
        }
        assert forall|p: (Word, i64), k: int|
            #![trigger sorted@.to_multiset().count(p), sorted@[k]]
            listed.to_multiset().count(p) > sorted@.to_multiset().count(p) && 0 <= k
                < sorted@.len() implies sorted@[k].1 >= p.1 by {
            assert(tail.to_multiset().count(p) > 0);
            vstd::seq_lib::to_multiset_contains(tail, p);
            let m = choose|m: int| 0 <= m < tail.len() && tail[m] == p;
            assert(full[n + m] == p);
            assert(full[k] == sorted@[k]);
        }
    }
    sorted
}

} // verus!
