use steve::classify::{CoverageScale, ScaleError, ScaleLevel};
use steve::extract::Question;

fn q(text: &str, i: usize) -> Question {
    Question { text: String::from(text), sequence_index: i }
}

fn level(verdict: &str, weight: u32) -> ScaleLevel {
    ScaleLevel { verdict: String::from(verdict), weight }
}

#[test]
fn scale_needs_at_least_two_levels() {
    assert_eq!(CoverageScale::new(Vec::new()).err(), Some(ScaleError::TooFewLevels));
    assert_eq!(CoverageScale::new(vec![level("A", 0)]).err(), Some(ScaleError::TooFewLevels));
}

#[test]
fn scale_floor_must_weigh_zero() {
    let r = CoverageScale::new(vec![level("A", 1), level("B", 2)]);
    assert_eq!(r.err(), Some(ScaleError::NonZeroFloor));
}

#[test]
fn scale_weights_must_increase() {
    let r = CoverageScale::new(vec![level("A", 0), level("B", 50), level("C", 50)]);
    assert_eq!(r.err(), Some(ScaleError::NonIncreasingWeights));
}

#[test]
fn scale_verdicts_must_be_distinct() {
    let r = CoverageScale::new(vec![level("A", 0), level("A", 10)]);
    assert_eq!(r.err(), Some(ScaleError::DuplicateVerdict));
}

#[test]
fn custom_scale_is_accepted() {
    let scale = CoverageScale::new(vec![level("No", 0), level("Maybe", 30), level("Yes", 60)])
        .unwrap();
    assert_eq!(scale.level_count(), 3);
    assert_eq!(scale.weight(1), 30);
    assert_eq!(scale.max_weight(), 60);
    assert_eq!(scale.verdict_token(2), "Yes");
}

#[test]
fn two_level_scale_maps_original_verdicts() {
    let scale = CoverageScale::two_level();
    assert_eq!(scale.level_count(), 2);
    let present = scale.classify_verdict(q("x", 0), &String::from("Answers:Present"));
    assert_eq!(present.level, 1);
    let missing = scale.classify_verdict(q("x", 1), &String::from("Answers:Missing"));
    assert_eq!(missing.level, 0);
}

#[test]
fn three_level_scale_maps_each_verdict() {
    let scale = CoverageScale::three_level();
    assert_eq!(scale.level_count(), 3);
    assert_eq!(scale.classify_verdict(q("x", 0), &String::from("Answers:Nothing")).level, 0);
    assert_eq!(scale.classify_verdict(q("x", 1), &String::from("Answers:Implicitly")).level, 1);
    assert_eq!(scale.classify_verdict(q("x", 2), &String::from("Answers:Explicitly")).level, 2);
}

#[test]
fn unrecognized_verdict_degrades_to_lowest_level() {
    let scale = CoverageScale::three_level();
    let r = scale.classify_verdict(q("why?", 0), &String::from("I am not sure"));
    assert_eq!(r.level, 0);
    assert_eq!(r.question.text, "why?");
    assert_eq!(r.question.sequence_index, 0);
}

#[test]
fn empty_and_near_miss_verdicts_degrade_to_lowest_level() {
    let scale = CoverageScale::two_level();
    assert_eq!(scale.classify_verdict(q("x", 0), &String::from("")).level, 0);
    assert_eq!(scale.classify_verdict(q("x", 0), &String::from("answers:present")).level, 0);
    assert_eq!(
        scale.classify_verdict(q("x", 0), &String::from("Answers:Present indeed")).level,
        0
    );
}
