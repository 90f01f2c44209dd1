use piiredact::document::{redact_document, redact_page_text, replace_first};
use piiredact::labels::LabelTable;
use piiredact::merge::{Entity, TokenPrediction};

fn table() -> LabelTable {
    let pairs = vec![(1usize, "NAME".to_string())];
    LabelTable::build(2, &pairs)
}

fn tok(text: &str, start: usize, end: usize, label_id: usize, special: bool) -> TokenPrediction {
    TokenPrediction {
        token_text: text.to_string(),
        offset_start: start,
        offset_end: end,
        label_id,
        score: 900000,
        is_special_token: special,
    }
}

fn ent(word: &str, label: &str, start: usize, end: usize, index: usize) -> Entity {
    Entity {
        word: word.to_string(),
        entity: label.to_string(),
        score: 900000,
        start,
        end,
        index,
    }
}

#[test]
fn replace_first_rewrites_only_the_earliest_occurrence() {
    let replaced = replace_first("one two one", "one", "[N]");
    assert_eq!(replaced, "[N] two one");
}

#[test]
fn replace_first_without_occurrence_keeps_text() {
    let replaced = replace_first("one two", "three", "[N]");
    assert_eq!(replaced, "one two");
}

#[test]
fn replace_first_with_empty_pattern_prepends() {
    let replaced = replace_first("abc", "", "X");
    assert_eq!(replaced, "Xabc");
}

#[test]
fn redact_page_text_replaces_each_word() {
    let page = "john wrote to jane";
    let entities = vec![ent("john", "NAME", 0, 4, 0), ent("jane", "NAME", 14, 18, 3)];
    let sanitized = redact_page_text(page, &entities);
    assert_eq!(sanitized, "[NAME] wrote to [NAME]");
}

#[test]
fn redact_page_text_without_entities_keeps_page() {
    let page = "nothing here";
    let sanitized = redact_page_text(page, &Vec::new());
    assert_eq!(sanitized, page);
}

#[test]
fn document_page_with_span_gets_placeholder_others_stay() {
    let pages = vec!["john was here".to_string(), "a clean page".to_string()];
    let page_tokens = vec![
        vec![
            tok("john", 0, 4, 1, false),
            tok("was", 5, 8, 0, false),
            tok("here", 9, 13, 0, false),
        ],
        vec![
            tok("a", 0, 1, 0, false),
            tok("clean", 2, 7, 0, false),
            tok("page", 8, 12, 0, false),
        ],
    ];
    let out = redact_document(&pages, &page_tokens, &table());
    assert_eq!(out.len(), 2);
    assert_eq!(out[0], "[NAME] was here");
    assert_eq!(out[1], "a clean page");
}

#[test]
fn document_without_detectable_pii_is_unchanged() {
    let pages = vec!["first page".to_string(), "second page".to_string()];
    let page_tokens = vec![
        vec![tok("first", 0, 5, 0, false), tok("page", 6, 10, 0, false)],
        vec![tok("second", 0, 6, 0, false), tok("page", 7, 11, 0, false)],
    ];
    let out = redact_document(&pages, &page_tokens, &table());
    assert_eq!(out, pages);
}

#[test]
fn document_pages_keep_their_order() {
    let pages = vec!["john".to_string(), "jane".to_string()];
    let page_tokens = vec![
        vec![tok("john", 0, 4, 1, false)],
        vec![tok("jane", 0, 4, 1, false)],
    ];
    let out = redact_document(&pages, &page_tokens, &table());
    assert_eq!(out, vec!["[NAME]".to_string(), "[NAME]".to_string()]);
}
