use steve::extract::{segment_response, DecisionExtractor};

#[test]
fn no_marker_yields_no_questions() {
    let qs = segment_response("there are no decision questions in this response.");
    assert_eq!(qs.len(), 0);
}

#[test]
fn empty_response_yields_no_questions() {
    let qs = segment_response("");
    assert_eq!(qs.len(), 0);
}

#[test]
fn chatter_and_trailing_blank_segment() {
    let qs = segment_response("chatter Q: a Q: b Q:   ");
    assert_eq!(qs.len(), 2);
    assert_eq!(qs[0].text, "a");
    assert_eq!(qs[1].text, "b");
    assert_eq!(qs[0].sequence_index, 0);
    assert_eq!(qs[1].sequence_index, 1);
}

#[test]
fn prefix_before_first_marker_is_discarded() {
    let qs = segment_response("Here are some questions. Q: Why was X chosen?");
    assert_eq!(qs.len(), 1);
    assert_eq!(qs[0].text, "Why was X chosen?");
}

#[test]
fn whitespace_only_after_marker() {
    let qs = segment_response("Q:   \n\t ");
    assert_eq!(qs.len(), 0);
}

#[test]
fn empty_piece_in_the_middle_is_dropped() {
    let qs = segment_response("Q: a Q:  Q: b");
    assert_eq!(qs.len(), 2);
    assert_eq!(qs[0].text, "a");
    assert_eq!(qs[1].text, "b");
}

#[test]
fn marker_immediately_after_text() {
    let qs = segment_response("Q: aQ: b");
    assert_eq!(qs.len(), 2);
    assert_eq!(qs[0].text, "a");
    assert_eq!(qs[1].text, "b");
}

#[test]
fn non_ascii_question_text() {
    let qs = segment_response("prólogo Q: ¿por qué? ");
    assert_eq!(qs.len(), 1);
    assert_eq!(qs[0].text, "¿por qué?");
}

#[test]
fn marker_split_across_fragments() {
    let mut ex = DecisionExtractor::new();
    ex.push_fragment("some chatter Q");
    ex.push_fragment(": reassembled across fragments?");
    assert_eq!(ex.fragment_count(), 2);
    let qs = ex.finish();
    assert_eq!(qs.len(), 1);
    assert_eq!(qs[0].text, "reassembled across fragments?");
}

#[test]
fn extractor_counts_fragments_and_reports_partial_size() {
    let mut ex = DecisionExtractor::new();
    ex.push_fragment("ab");
    ex.push_fragment("cd");
    ex.push_fragment("");
    assert_eq!(ex.fragment_count(), 3);
    let failure = ex.fail();
    assert_eq!(failure.partial_len, 4);
}

#[test]
fn bare_marker_yields_no_questions() {
    let qs = segment_response("Q:");
    assert_eq!(qs.len(), 0);
}

#[test]
fn marker_at_start_without_spacing() {
    let qs = segment_response("Q:a");
    assert_eq!(qs.len(), 1);
    assert_eq!(qs[0].text, "a");
}

#[test]
fn partial_size_counts_characters_not_bytes() {
    let mut ex = DecisionExtractor::new();
    ex.push_fragment("ab");
    ex.push_fragment("é");
    let failure = ex.fail();
    assert_eq!(failure.partial_len, 3);
}

#[test]
fn empty_diff_needs_no_model_call() {
    assert!(!DecisionExtractor::needs_model(""));
    assert!(DecisionExtractor::needs_model("diff --git a/x b/x"));
}
