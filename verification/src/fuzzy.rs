//! Grading of free-text answers by their likeness to the expected answer.
//!
//! Scores and thresholds are fixed-point numbers that count millionths:
//! `SCALE` stands for 1.

use crate::progress::SCALE;
use crate::text::{
    decimal, decimal_string, folded, is_ascii_text, lowercase, lowercase_of, same_text, trim,
    trimmed,
};
use vstd::prelude::*;
use vstd::string::*;

verus! {

/// The threshold that callers use who have no other: eight tenths.
pub const DEFAULT_THRESHOLD: u64 = 800_000;

/// The verdict on an answer.
#[derive(Debug)]
pub struct MatchResult {
    pub is_correct: bool,
    /// In millionths, from 0 to `SCALE`.
    pub similarity_score: u64,
    pub feedback: String,
}

/// The least number of characters to insert, delete or replace to make
/// one text of the other.
pub open spec fn edit_distance(a: Seq<char>, b: Seq<char>) -> nat
    decreases a.len() + b.len(),
{
    if a.len() == 0 {
        b.len()
    } else if b.len() == 0 {
        a.len()
    } else {
        let replace = edit_distance(a.drop_last(), b.drop_last()) + if a.last() == b.last() {
            0nat
        } else {
            1nat
        };
        let delete = edit_distance(a.drop_last(), b) + 1;
        let insert = edit_distance(a, b.drop_last()) + 1;
        if replace <= delete && replace <= insert {
            replace
        } else if delete <= insert {
            delete
        } else {
            insert
        }
    }
}

/// The edit distance is the same in both directions.
pub proof fn lemma_edit_distance_symmetric(a: Seq<char>, b: Seq<char>)
    ensures
        edit_distance(a, b) == edit_distance(b, a),
    decreases a.len() + b.len(),
{
    if a.len() > 0 && b.len() > 0 {
        lemma_edit_distance_symmetric(a.drop_last(), b.drop_last());
        lemma_edit_distance_symmetric(a.drop_last(), b);
        lemma_edit_distance_symmetric(a, b.drop_last());
    }
}

/// The edit distance is at most the length of the longer text.
pub proof fn lemma_edit_distance_bound(a: Seq<char>, b: Seq<char>)
    ensures
        edit_distance(a, b) <= if a.len() >= b.len() {
            a.len()
        } else {
            b.len()
        },
    decreases a.len() + b.len(),
{
    if a.len() > 0 && b.len() > 0 {
        lemma_edit_distance_bound(a.drop_last(), b.drop_last());
    }
}

/// The edit distance between a text and itself is zero.
pub proof fn lemma_edit_distance_self(a: Seq<char>)
    ensures
        edit_distance(a, a) == 0,
    decreases a.len(),
{
    if a.len() > 0 {
        lemma_edit_distance_self(a.drop_last());
    }
}

/// `strsim::levenshtein`: the edit distance of two strings, counted in
/// characters.
#[verifier::external_body]
fn levenshtein(a: &str, b: &str) -> (d: usize)
    ensures
        d == edit_distance(a@, b@),
{
    strsim::levenshtein(a, b)
}

/// The bits of the double that `strsim::jaro_winkler` gives for two
/// texts.
pub uninterp spec fn jaro_winkler_bits(a: Seq<char>, b: Seq<char>) -> u64;

/// `strsim::jaro_winkler`: the Jaro-Winkler likeness of two strings, a
/// double, handed on as its bits. The contract only names the result.
#[verifier::external_body]
fn jaro_winkler(a: &str, b: &str) -> (bits: u64)
    ensures
        bits == jaro_winkler_bits(a@, b@),
{
    strsim::jaro_winkler(a, b).to_bits()
}

/// Two to the power of `n`.
pub open spec fn two_to(n: nat) -> nat
    decreases n,
{
    if n == 0 {
        1
    } else {
        2 * two_to((n - 1) as nat)
    }
}

/// The millionths, rounded down, of the double with the given bits, where
/// the double is held to the range from 0 to 1: a negative number and a
/// NaN count as 0, a number above 1 as 1.
pub open spec fn unit_millionths(bits: u64) -> nat {
    let sign = bits / 0x8000_0000_0000_0000;
    let exponent = (bits / 0x10_0000_0000_0000) % 0x800;
    let fraction = bits % 0x10_0000_0000_0000;
    if sign != 0 {
        0
    } else if exponent == 0x7ff {
        if fraction == 0 {
            SCALE as nat
        } else {
            0
        }
    } else if exponent >= 1023 {
        SCALE as nat
    } else if exponent <= 1002 {
        0
    } else {
        let mantissa = 0x10_0000_0000_0000 + fraction;
        ((mantissa * SCALE) / (two_to((1075 - exponent) as nat) as int)) as nat
    }
}

proof fn lemma_two_to_grows(a: nat, b: nat)
    requires
        a <= b,
    ensures
        two_to(a) <= two_to(b),
        two_to(a) >= 1,
    decreases b,
{
    if a < b {
        lemma_two_to_grows(a, (b - 1) as nat);
    } else if a > 0 {
        lemma_two_to_grows((a - 1) as nat, (a - 1) as nat);
    }
}

proof fn lemma_two_to_53()
    ensures
        two_to(53) == 0x20_0000_0000_0000,
{
    reveal_with_fuel(two_to, 54);
}

proof fn lemma_two_to_72()
    ensures
        two_to(72) == 0x1_00_0000_0000_0000_0000,
{
    lemma_two_to_53();
    reveal_with_fuel(two_to, 20);
    assert(two_to(72) == 524288 * two_to(53));
}

/// The millionths of a double in the range from 0 to 1, from its bits.
pub fn millionths_of(bits: u64) -> (r: u64)
    ensures
        r == unit_millionths(bits),
        r <= SCALE,
{
    let sign: u64 = bits / 0x8000_0000_0000_0000;
    let exponent: u64 = (bits / 0x10_0000_0000_0000) % 0x800;
    let fraction: u64 = bits % 0x10_0000_0000_0000;
    if sign != 0 {
        return 0;
    }
    if exponent == 0x7ff {
        return if fraction == 0 {
            SCALE
        } else {
            0
        };
    }
    if exponent >= 1023 {
        return SCALE;
    }
    if exponent <= 1002 {
        return 0;
    }
    let shift: u64 = 1075 - exponent;
    let mut power: u128 = 1;
    let mut i: u64 = 0;
    proof {
        lemma_two_to_72();
    }
    while i < shift
        invariant
            i <= shift <= 72,
            power == two_to(i as nat),
            power <= two_to(72),
            two_to(72) == 0x1_00_0000_0000_0000_0000,
        decreases shift - i,
    {
        proof {
            lemma_two_to_grows((i + 1) as nat, 72);
            reveal_with_fuel(two_to, 2);
        }
        power = power * 2;
        i += 1;
    }
    let mantissa: u128 = 0x10_0000_0000_0000u128 + (fraction as u128);
    let scaled: u128 = mantissa * (SCALE as u128);
    proof {
        lemma_two_to_53();
        lemma_two_to_grows(53, shift as nat);
        assert(scaled / power <= SCALE) by (nonlinear_arith)
            requires
                scaled == mantissa * SCALE,
                mantissa < power,
                power > 0,
        ;
    }
    (scaled / power) as u64
}

/// The likeness by edit distance: the share of the longer text that need
/// not be edited, in millionths, rounded down. Two empty texts are alike.
pub open spec fn edit_similarity(len_a: nat, len_b: nat, distance: nat) -> nat {
    let longest = if len_a >= len_b {
        len_a
    } else {
        len_b
    };
    if longest == 0 {
        SCALE as nat
    } else if distance >= longest {
        0
    } else {
        (((longest - distance) * SCALE) / (longest as int)) as nat
    }
}

/// The score: four tenths of the likeness by edit distance and six tenths
/// of the likeness by prefix.
pub open spec fn blend(edit: nat, prefix: nat) -> nat {
    (4 * edit + 6 * prefix) / 10
}

/// The score of an answer that is not the expected answer itself.
pub open spec fn score_of(len_a: nat, len_b: nat, distance: nat, prefix_bits: u64) -> nat {
    blend(edit_similarity(len_a, len_b, distance), unit_millionths(prefix_bits))
}

/// What the grader says of an answer that is not the expected answer
/// itself.
pub open spec fn feedback_for(
    score: nat,
    threshold: nat,
    distance: nat,
    expected: Seq<char>,
) -> Seq<char> {
    if score >= threshold {
        "Close enough! ✓ ("@ + decimal((score + 5_000) / 10_000) + "% match)"@
    } else if score >= SCALE / 2 {
        "Almost! "@ + decimal(distance) + " characters off. Expected: '"@ + expected + "'"@
    } else {
        "Incorrect. Expected: '"@ + expected + "'"@
    }
}

/// Whether a verdict is the one on the expected answer itself.
pub open spec fn is_perfect(r: MatchResult) -> bool {
    &&& r.is_correct
    &&& r.similarity_score == SCALE
    &&& r.feedback@ == "Perfect! ✓"@
}

/// Whether a verdict is the one on an answer that is not the expected
/// answer itself, given the lengths of the two normalized texts, their
/// edit distance and the bits of their likeness by prefix.
pub open spec fn is_graded(
    r: MatchResult,
    len_a: nat,
    len_b: nat,
    distance: nat,
    prefix_bits: u64,
    threshold: u64,
    expected: Seq<char>,
) -> bool {
    let score = score_of(len_a, len_b, distance, prefix_bits);
    &&& r.similarity_score == score
    &&& r.is_correct == (score >= threshold)
    &&& r.feedback@ == feedback_for(score, threshold as nat, distance, expected)
}

fn edit_similarity_of(len_a: usize, len_b: usize, distance: usize) -> (r: u64)
    ensures
        r == edit_similarity(len_a as nat, len_b as nat, distance as nat),
        r <= SCALE,
{
    let longest: usize = if len_a >= len_b {
        len_a
    } else {
        len_b
    };
    if longest == 0 {
        SCALE
    } else if distance >= longest {
        0
    } else {
        let kept: u128 = (longest - distance) as u128;
        let whole: u128 = longest as u128;
        let scaled: u128 = kept * (SCALE as u128);
        assert(scaled / whole <= SCALE) by (nonlinear_arith)
            requires
                scaled == kept * SCALE,
                kept <= whole,
                whole > 0,
        ;
        (scaled / whole) as u64
    }
}

/// The verdict on an answer that is not the expected answer itself.
///
/// `len_a` and `len_b` are the lengths, in characters, of the two
/// normalized texts, `distance` is their edit distance, `prefix_bits`
/// the bits of their Jaro-Winkler likeness, and `expected` the expected
/// answer as it was given.
pub fn grade(
    len_a: usize,
    len_b: usize,
    distance: usize,
    prefix_bits: u64,
    threshold: u64,
    expected: &str,
) -> (r: MatchResult)
    ensures
        is_graded(
            r,
            len_a as nat,
            len_b as nat,
            distance as nat,
            prefix_bits,
            threshold,
            expected@,
        ),
        r.similarity_score <= SCALE,
{
    let edit = edit_similarity_of(len_a, len_b, distance);
    let prefix = millionths_of(prefix_bits);
    let score: u64 = (4 * edit + 6 * prefix) / 10;
    if score >= threshold {
        let mut feedback = String::from_str("Close enough! ✓ (");
        let percent = decimal_string((score + 5_000) / 10_000);
        feedback.append(percent.as_str());
        feedback.append("% match)");
        MatchResult { is_correct: true, similarity_score: score, feedback }
    } else if score >= SCALE / 2 {
        let mut feedback = String::from_str("Almost! ");
        let off = decimal_string(distance as u64);
        feedback.append(off.as_str());
        feedback.append(" characters off. Expected: '");
        feedback.append(expected);
        feedback.append("'");
        MatchResult { is_correct: false, similarity_score: score, feedback }
    } else {
        let mut feedback = String::from_str("Incorrect. Expected: '");
        feedback.append(expected);
        feedback.append("'");
        MatchResult { is_correct: false, similarity_score: score, feedback }
    }
}

/// A text as the grader compares it: trimmed, in lower case.
pub open spec fn normalized(s: Seq<char>) -> Seq<char> {
    lowercase_of(trimmed(s))
}

/// Grades an answer against the expected one.
///
/// Both are trimmed and put in lower case. Where they are then the same,
/// the answer is right, with the full score. Otherwise the score blends
/// their likeness by edit distance and by prefix, and the answer is
/// right where the score reaches the threshold.
pub fn check_match(user_input: &str, expected: &str, threshold: u64) -> (r: MatchResult)
    ensures
        r.similarity_score <= SCALE,
        is_ascii_text(trimmed(user_input@)) ==> normalized(user_input@) == folded(
            trimmed(user_input@),
        ),
        is_ascii_text(trimmed(expected@)) ==> normalized(expected@) == folded(trimmed(expected@)),
        normalized(user_input@) == normalized(expected@) ==> is_perfect(r),
        normalized(user_input@) != normalized(expected@) ==> is_graded(
            r,
            normalized(user_input@).len(),
            normalized(expected@).len(),
            edit_distance(normalized(user_input@), normalized(expected@)),
            jaro_winkler_bits(normalized(user_input@), normalized(expected@)),
            threshold,
            expected@,
        ),
{
    let given = lowercase(trim(user_input));
    let wanted = lowercase(trim(expected));
    if same_text(given.as_str(), wanted.as_str()) {
        return MatchResult {
            is_correct: true,
            similarity_score: SCALE,
            feedback: String::from_str("Perfect! ✓"),
        };
    }
    let distance = levenshtein(given.as_str(), wanted.as_str());
    let prefix_bits = jaro_winkler(given.as_str(), wanted.as_str());
    grade(
        given.as_str().unicode_len(),
        wanted.as_str().unicode_len(),
        distance,
        prefix_bits,
        threshold,
        expected,
    )
}

} // verus!
