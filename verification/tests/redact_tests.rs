use piiredact::errors::PiiError;
use piiredact::labels::LabelTable;
use piiredact::merge::{Entity, TokenPrediction};
use piiredact::redact::{apply, detect_and_redact_text};

fn ent(word: &str, label: &str, start: usize, end: usize, index: usize) -> Entity {
    Entity {
        word: word.to_string(),
        entity: label.to_string(),
        score: 900000,
        start,
        end,
        index,
    }
}

#[test]
fn apply_replaces_single_span() {
    let text = "john called";
    let entities = vec![ent("john", "NAME", 0, 4, 0)];
    let sanitized = apply(text, &entities).unwrap();
    assert_eq!(sanitized, "[NAME] called");
}

#[test]
fn apply_replaces_spans_back_to_front() {
    let text = "john wrote to jane";
    let entities = vec![ent("john", "NAME", 0, 4, 0), ent("jane", "NAME", 14, 18, 3)];
    let sanitized = apply(text, &entities).unwrap();
    assert_eq!(sanitized, "[NAME] wrote to [NAME]");
}

#[test]
fn apply_without_entities_keeps_text() {
    let text = "nothing to hide";
    let sanitized = apply(text, &Vec::new()).unwrap();
    assert_eq!(sanitized, text);
}

#[test]
fn sanitized_text_lacks_detected_words() {
    let text = "ada wrote to grace";
    let entities = vec![ent("ada", "NAME", 0, 3, 0), ent("grace", "NAME", 13, 18, 3)];
    let sanitized = apply(text, &entities).unwrap();
    assert!(!sanitized.contains("ada"));
    assert!(!sanitized.contains("grace"));
    assert_eq!(sanitized, "[NAME] wrote to [NAME]");
}

#[test]
fn apply_replaces_a_span_covering_the_whole_text() {
    let text = "secret";
    let entities = vec![ent("secret", "PASSWORD", 0, 6, 0)];
    let sanitized = apply(text, &entities).unwrap();
    assert_eq!(sanitized, "[PASSWORD]");
}

#[test]
fn apply_on_empty_text_without_entities() {
    let sanitized = apply("", &Vec::new()).unwrap();
    assert_eq!(sanitized, "");
}

#[test]
fn apply_replaces_touching_spans_separately() {
    // Two touching spans that reach the redactor unmerged are each replaced
    // on their own; offsets of the earlier span survive the later
    // replacement because spans are processed back to front.
    let text = "abcdef!";
    let entities = vec![ent("abc", "NAME", 0, 3, 0), ent("def", "EMAIL", 3, 6, 1)];
    let sanitized = apply(text, &entities).unwrap();
    assert_eq!(sanitized, "[NAME][EMAIL]!");
}

#[test]
fn overlapping_spans_are_a_span_conflict() {
    let text = "abcdefgh";
    let entities = vec![ent("abcde", "NAME", 0, 5, 0), ent("defg", "NAME", 3, 7, 1)];
    let result = apply(text, &entities);
    assert!(matches!(result, Err(PiiError::SpanConflict { .. })));
}

#[test]
fn span_past_text_end_is_a_span_conflict() {
    let text = "short";
    let entities = vec![ent("shortest", "NAME", 0, 8, 0)];
    let result = apply(text, &entities);
    assert!(matches!(result, Err(PiiError::SpanConflict { .. })));
}

#[test]
fn spans_out_of_order_are_a_span_conflict() {
    let text = "abcdefgh";
    let entities = vec![ent("fg", "NAME", 5, 7, 1), ent("ab", "NAME", 0, 2, 0)];
    let result = apply(text, &entities);
    assert!(matches!(result, Err(PiiError::SpanConflict { .. })));
}

#[test]
fn inverted_span_is_a_span_conflict() {
    let text = "abcdefgh";
    let entities = vec![Entity {
        word: "cb".to_string(),
        entity: "NAME".to_string(),
        score: 900000,
        start: 3,
        end: 1,
        index: 0,
    }];
    let result = apply(text, &entities);
    assert!(matches!(result, Err(PiiError::SpanConflict { .. })));
}

fn table() -> LabelTable {
    let pairs = vec![(1usize, "NAME".to_string())];
    LabelTable::build(2, &pairs)
}

fn tok(text: &str, start: usize, end: usize, label_id: usize, special: bool) -> TokenPrediction {
    TokenPrediction {
        token_text: text.to_string(),
        offset_start: start,
        offset_end: end,
        label_id,
        score: 900000,
        is_special_token: special,
    }
}

#[test]
fn detect_and_redact_text_end_to_end() {
    let text = "john called home";
    let tokens = vec![
        tok("[CLS]", 0, 0, 0, true),
        tok("john", 0, 4, 1, false),
        tok("called", 5, 11, 0, false),
        tok("home", 12, 16, 0, false),
        tok("[SEP]", 0, 0, 0, true),
    ];
    let sanitized = detect_and_redact_text(text, &tokens, &table()).unwrap();
    assert_eq!(sanitized, "[NAME] called home");
    assert!(!sanitized.contains("john"));
}

#[test]
fn detect_and_redact_text_merges_before_redacting() {
    let text = "johnson spoke";
    let tokens = vec![
        tok("john", 0, 4, 1, false),
        tok("son", 4, 7, 1, false),
        tok("spoke", 8, 13, 0, false),
    ];
    let sanitized = detect_and_redact_text(text, &tokens, &table()).unwrap();
    assert_eq!(sanitized, "[NAME] spoke");
}
