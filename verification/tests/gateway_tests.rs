use piiredact::errors::PiiError;
use piiredact::gateway::{build_predictions, check_parallel, tokenize, EncodedTokens};
use piiredact::labels::LabelTable;
use piiredact::merge::detect_entities;
use piiredact::redact::detect_and_redact_text;

fn table() -> LabelTable {
    let pairs = vec![(1usize, "NAME".to_string())];
    LabelTable::build(2, &pairs)
}

fn sample_encoding() -> EncodedTokens {
    EncodedTokens {
        ids: vec![7, 8, 9],
        tokens: vec!["john".to_string(), "met".to_string(), "jane".to_string()],
        offsets: vec![(0, 4), (5, 8), (9, 13)],
        special_tokens_mask: vec![0, 0, 0],
        attention_mask: vec![1, 1, 1],
    }
}

#[test]
fn build_predictions_pairs_tokens_with_model_outputs() {
    let enc = sample_encoding();
    let label_ids = vec![1u32, 0, 1];
    let scores = vec![910000u32, 990000, 870000];
    let preds = build_predictions(&enc, &label_ids, &scores).unwrap();
    assert_eq!(preds.len(), 3);
    assert_eq!(preds[0].token_text, "john");
    assert_eq!(preds[0].offset_start, 0);
    assert_eq!(preds[0].offset_end, 4);
    assert_eq!(preds[0].label_id, 1);
    assert_eq!(preds[0].score, 910000);
    assert!(!preds[0].is_special_token);
    assert_eq!(preds[1].label_id, 0);
    assert_eq!(preds[2].token_text, "jane");
}

#[test]
fn build_predictions_marks_special_tokens() {
    let mut enc = sample_encoding();
    enc.special_tokens_mask = vec![1, 0, 1];
    let label_ids = vec![1u32, 1, 1];
    let scores = vec![900000u32, 900000, 900000];
    let preds = build_predictions(&enc, &label_ids, &scores).unwrap();
    assert!(preds[0].is_special_token);
    assert!(!preds[1].is_special_token);
    assert!(preds[2].is_special_token);
}

#[test]
fn build_predictions_rejects_mismatched_lengths() {
    let enc = sample_encoding();
    let label_ids = vec![1u32, 0];
    let scores = vec![910000u32, 990000, 870000];
    let result = build_predictions(&enc, &label_ids, &scores);
    assert!(matches!(result, Err(PiiError::ModelInference { .. })));
}

#[test]
fn check_parallel_passes_parallel_arrays_through() {
    let enc = sample_encoding();
    let checked = check_parallel(enc).unwrap();
    assert_eq!(checked.tokens, vec!["john", "met", "jane"]);
    assert_eq!(checked.offsets, vec![(0, 4), (5, 8), (9, 13)]);
}

#[test]
fn check_parallel_rejects_unequal_arrays() {
    let mut enc = sample_encoding();
    enc.attention_mask = vec![1, 1];
    let result = check_parallel(enc);
    assert!(matches!(result, Err(PiiError::ModelInference { .. })));
}

fn word_level_tokenizer() -> tokenizers::Tokenizer {
    let json = r#"{
        "version": "1.0",
        "truncation": null,
        "padding": null,
        "added_tokens": [],
        "normalizer": null,
        "pre_tokenizer": { "type": "Whitespace" },
        "post_processor": null,
        "decoder": null,
        "model": {
            "type": "WordLevel",
            "vocab": { "[UNK]": 0, "john": 1, "met": 2, "jane": 3 },
            "unk_token": "[UNK]"
        }
    }"#;
    tokenizers::Tokenizer::from_bytes(json.as_bytes()).unwrap()
}

#[test]
fn tokenize_returns_parallel_arrays_with_word_offsets() {
    let tokenizer = word_level_tokenizer();
    let enc = tokenize(&tokenizer, "john met jane").unwrap();
    assert_eq!(enc.tokens, vec!["john", "met", "jane"]);
    assert_eq!(enc.offsets, vec![(0, 4), (5, 8), (9, 13)]);
    assert_eq!(enc.ids.len(), 3);
    assert_eq!(enc.special_tokens_mask, vec![0, 0, 0]);
    assert_eq!(enc.attention_mask, vec![1, 1, 1]);
}

#[test]
fn tokenize_uses_character_offsets_on_non_ascii_text() {
    // "rené" is four characters but five bytes: offsets must count
    // characters for the redactor to splice at the right places.
    let json = r#"{
        "version": "1.0",
        "truncation": null,
        "padding": null,
        "added_tokens": [],
        "normalizer": null,
        "pre_tokenizer": { "type": "Whitespace" },
        "post_processor": null,
        "decoder": null,
        "model": {
            "type": "WordLevel",
            "vocab": { "[UNK]": 0, "rené": 1, "met": 2, "jane": 3 },
            "unk_token": "[UNK]"
        }
    }"#;
    let tokenizer = tokenizers::Tokenizer::from_bytes(json.as_bytes()).unwrap();
    let text = "rené met jane";
    let enc = tokenize(&tokenizer, text).unwrap();
    assert_eq!(enc.tokens, vec!["rené", "met", "jane"]);
    assert_eq!(enc.offsets, vec![(0, 4), (5, 8), (9, 13)]);
    let n = enc.tokens.len();
    let mut label_ids: Vec<u32> = vec![0; n];
    label_ids[0] = 1;
    let scores = vec![900000u32; n];
    let preds = build_predictions(&enc, &label_ids, &scores).unwrap();
    let sanitized = detect_and_redact_text(text, &preds, &table()).unwrap();
    assert_eq!(sanitized, "[NAME] met jane");
}

#[test]
fn tokenizer_to_redaction_end_to_end() {
    let tokenizer = word_level_tokenizer();
    let text = "john met jane";
    let enc = tokenize(&tokenizer, text).unwrap();
    let n = enc.tokens.len();
    let mut label_ids: Vec<u32> = vec![0; n];
    let mut scores: Vec<u32> = vec![990000; n];
    for i in 0..n {
        if enc.tokens[i] == "john" || enc.tokens[i] == "jane" {
            label_ids[i] = 1;
            scores[i] = 910000;
        }
    }
    let preds = build_predictions(&enc, &label_ids, &scores).unwrap();
    let entities = detect_entities(&preds, &table());
    assert_eq!(entities.len(), 2);
    assert_eq!(entities[0].word, "john");
    assert_eq!(entities[1].word, "jane");
    let sanitized = detect_and_redact_text(text, &preds, &table()).unwrap();
    assert_eq!(sanitized, "[NAME] met [NAME]");
}
