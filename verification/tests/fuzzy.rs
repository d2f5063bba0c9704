use voiq_core::{check_match, grade, millionths_of, DEFAULT_THRESHOLD, SCALE};

#[test]
fn check_match_ignores_case() {
    let r = check_match("Serendipity", "serendipity", 800_000);
    assert!(r.is_correct);
    assert_eq!(r.similarity_score, SCALE);
    assert_eq!(r.similarity_score as f64 / SCALE as f64, 1.0);
    assert_eq!(r.feedback, "Perfect! ✓");
}

#[test]
fn check_match_ignores_white_space_around_and_unicode_case() {
    let r = check_match("  ÉCOLE\t", "école", 800_000);
    assert!(r.is_correct);
    assert_eq!(r.similarity_score, SCALE);
    let inner = check_match("ice cream", "icecream", 1_000_000);
    assert!(!inner.is_correct);
}

#[test]
fn check_match_accepts_a_near_miss() {
    let r = check_match("celebrat", "celebrate", 800_000);
    assert!(r.is_correct);
    assert!(r.similarity_score >= 800_000 && r.similarity_score < SCALE);
    assert_eq!(r.similarity_score, 942_221);
    let score = r.similarity_score as f64 / SCALE as f64;
    assert!(score >= 0.8 && score < 1.0);
    assert_eq!(r.feedback, "Close enough! ✓ (94% match)");
}

#[test]
fn check_match_rejects_a_different_word() {
    let r = check_match("xyz", "celebrate", 800_000);
    assert!(!r.is_correct);
    assert!(r.similarity_score < SCALE / 2);
    assert_eq!(r.similarity_score, 0);
    assert!(r.feedback.contains("celebrate"));
    assert_eq!(r.feedback, "Incorrect. Expected: 'celebrate'");
}

#[test]
fn check_match_says_how_far_off_an_answer_is() {
    let r = check_match("celebrat", "Celebrate", 990_000);
    assert!(!r.is_correct);
    assert_eq!(r.similarity_score, 942_221);
    assert_eq!(r.feedback, "Almost! 1 characters off. Expected: 'Celebrate'");
    let far = check_match("kitten", "sitting", 900_000);
    assert!(!far.is_correct);
    assert_eq!(far.feedback, "Almost! 3 characters off. Expected: 'sitting'");
}

#[test]
fn check_match_goes_by_the_threshold_given() {
    assert!(check_match("xyz", "celebrate", 0).is_correct);
    assert!(!check_match("celebrat", "celebrate", 942_222).is_correct);
    assert!(check_match("celebrat", "celebrate", 942_221).is_correct);
    assert!(!check_match("celebrat", "celebrate", u64::MAX).is_correct);
    assert!(check_match("same", "same", u64::MAX).is_correct);
}

#[test]
fn check_match_of_nothing_against_something() {
    let r = check_match("", "word", 800_000);
    assert!(!r.is_correct);
    assert_eq!(r.similarity_score, 0);
    let both = check_match("  ", "", 800_000);
    assert!(both.is_correct);
}

#[test]
fn millionths_of_reads_a_double() {
    assert_eq!(millionths_of(0.0f64.to_bits()), 0);
    assert_eq!(millionths_of(1.0f64.to_bits()), 1_000_000);
    assert_eq!(millionths_of(0.5f64.to_bits()), 500_000);
    assert_eq!(millionths_of(0.25f64.to_bits()), 250_000);
    assert_eq!(millionths_of(0.8f64.to_bits()), 800_000);
    assert_eq!(millionths_of(0.1f64.to_bits()), 100_000);
    assert_eq!(millionths_of(0.3f64.to_bits()), 299_999);
    assert_eq!(millionths_of(0.999_999_9f64.to_bits()), 999_999);
    assert_eq!(millionths_of(0.000_001_5f64.to_bits()), 1);
    assert_eq!(millionths_of(0.000_000_9f64.to_bits()), 0);
    assert_eq!(millionths_of(f64::MIN_POSITIVE.to_bits()), 0);
    assert_eq!(millionths_of(5e-324f64.to_bits()), 0);
}

#[test]
fn millionths_of_holds_a_double_to_the_unit_range() {
    assert_eq!(millionths_of(1.5f64.to_bits()), 1_000_000);
    assert_eq!(millionths_of(f64::MAX.to_bits()), 1_000_000);
    assert_eq!(millionths_of(f64::INFINITY.to_bits()), 1_000_000);
    assert_eq!(millionths_of((-0.5f64).to_bits()), 0);
    assert_eq!(millionths_of((-0.0f64).to_bits()), 0);
    assert_eq!(millionths_of(f64::NEG_INFINITY.to_bits()), 0);
    assert_eq!(millionths_of(f64::NAN.to_bits()), 0);
}

#[test]
fn millionths_of_agrees_with_the_floor() {
    let mut x = 0.000_123f64;
    while x < 1.0 {
        let expected = (x * 1e6).floor() as u64;
        let got = millionths_of(x.to_bits());
        assert!(got == expected || got + 1 == expected);
        x += 0.003_7;
    }
}

#[test]
fn grade_blends_the_two_measures() {
    let r = grade(8, 9, 1, 0.5f64.to_bits(), 600_000, "celebrate");
    assert_eq!(r.similarity_score, (4 * 888_888 + 6 * 500_000) / 10);
    assert!(r.is_correct);
    assert_eq!(r.feedback, "Close enough! ✓ (66% match)");
    let low = grade(3, 9, 9, 0.0f64.to_bits(), 800_000, "celebrate");
    assert_eq!(low.similarity_score, 0);
    assert_eq!(low.feedback, "Incorrect. Expected: 'celebrate'");
    let mid = grade(4, 4, 2, 0.5f64.to_bits(), 800_000, "word");
    assert_eq!(mid.similarity_score, 500_000);
    assert!(!mid.is_correct);
    assert_eq!(mid.feedback, "Almost! 2 characters off. Expected: 'word'");
    let under = grade(4, 4, 2, 0.499f64.to_bits(), 800_000, "word");
    assert_eq!(under.feedback, "Incorrect. Expected: 'word'");
    let full = grade(0, 0, 0, 1.0f64.to_bits(), 1_000_000, "");
    assert_eq!(full.similarity_score, SCALE);
    assert_eq!(full.feedback, "Close enough! ✓ (100% match)");
    let odd = grade(2, 2, 5, 1.0f64.to_bits(), 500_000, "ab");
    assert_eq!(odd.similarity_score, 600_000);
}

#[test]
fn default_threshold_is_eight_tenths() {
    assert_eq!(DEFAULT_THRESHOLD as f64 / SCALE as f64, 0.8);
    assert!(check_match("celebrat", "celebrate", DEFAULT_THRESHOLD).is_correct);
    assert!(!check_match("party", "celebrate", DEFAULT_THRESHOLD).is_correct);
}

#[test]
fn check_match_shows_the_percentage_rounded() {
    let r = check_match("hallo", "hello", 800_000);
    assert!(r.is_correct);
    assert_eq!(r.similarity_score, 848_000);
    assert_eq!(r.feedback, "Close enough! ✓ (85% match)");
    let half_up = grade(4, 4, 2, 0.875f64.to_bits(), 0, "word");
    assert_eq!(half_up.similarity_score, 725_000);
    assert_eq!(half_up.feedback, "Close enough! ✓ (73% match)");
    let below_half = grade(4, 4, 2, 0.8125f64.to_bits(), 0, "word");
    assert_eq!(below_half.similarity_score, 687_500);
    assert_eq!(below_half.feedback, "Close enough! ✓ (69% match)");
    let down = grade(4, 4, 2, 0.75f64.to_bits(), 0, "word");
    assert_eq!(down.similarity_score, 650_000);
    assert_eq!(down.feedback, "Close enough! ✓ (65% match)");
    let top = grade(200, 200, 1, 1.0f64.to_bits(), 0, "word");
    assert_eq!(top.similarity_score, 998_000);
    assert_eq!(top.feedback, "Close enough! ✓ (100% match)");
}
