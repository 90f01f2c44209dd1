use vstd::prelude::*;

use crate::labels::LabelTable;
use crate::merge::{
    detect_entities, merged_entities, valid_label_ids, Entity, EntityView, TokenPrediction,
    TokenPredictionView,
};
use crate::redact::{make_placeholder, placeholder};

verus! {

/// The least index at or after `i` where `pat` occurs literally in `t`.
pub open spec fn first_match_from(t: Seq<char>, pat: Seq<char>, i: int) -> Option<int>
    decreases t.len() - i,
{
    if i < 0 || i + pat.len() > t.len() {
        None
    } else if pat.len() == 0 {
        Some(i)
    } else if t.subrange(i, i + pat.len() as int) == pat {
        Some(i)
    } else {
        first_match_from(t, pat, i + 1)
    }
}

/// `t` with the first literal occurrence of `pat` replaced by `repl`, or `t`
/// unchanged when `pat` does not occur.
pub open spec fn replaced_first(t: Seq<char>, pat: Seq<char>, repl: Seq<char>) -> Seq<char> {
    match first_match_from(t, pat, 0) {
        Some(i) => t.subrange(0, i) + repl + t.subrange(i + pat.len() as int, t.len() as int),
        None => t,
    }
}

/// A found match lies inside the text and equals the pattern there.
proof fn lemma_first_match_some(t: Seq<char>, pat: Seq<char>, j: int, i: int)
    requires
        first_match_from(t, pat, j) == Some(i),
    ensures
        0 <= j <= i,
        i + pat.len() <= t.len(),
        t.subrange(i, i + pat.len() as int) == pat,
    decreases t.len() - j,
{
    if j < 0 || j + pat.len() > t.len() {
        assert(false);
    } else if pat.len() == 0 {
        assert(t.subrange(i, i + pat.len() as int) =~= pat);
    } else if t.subrange(j, j + pat.len() as int) == pat {
    } else {
        lemma_first_match_some(t, pat, j + 1, i);
    }
}

/// Whether `pat` occurs in `text` starting exactly at position `i`.
fn match_at(text: &str, pat: &str, i: usize) -> (b: bool)
    requires
        i + pat@.len() <= text@.len(),
        text@.len() <= usize::MAX,
    ensures
        b == (text@.subrange(i as int, i + pat@.len()) == pat@),
{
    let m = pat.unicode_len();
    let mut j: usize = 0;
    while j < m
        invariant
            j <= m,
            m == pat@.len(),
            i + m <= text@.len(),
            text@.len() <= usize::MAX,
            forall|k: int| 0 <= k < j ==> text@[i + k] == pat@[k],
        decreases m - j,
    {
        if text.get_char(i + j) != pat.get_char(j) {
            proof {
                assert(text@.subrange(i as int, i + pat@.len())[j as int] == text@[i + j]);
            }
            return false;
        }
        j = j + 1;
    }
    proof {
        assert(text@.subrange(i as int, i + pat@.len()) =~= pat@);
    }
    true
}

/// The position of the first literal occurrence of `pat` in `text`.
fn find_first(text: &str, pat: &str) -> (r: Option<usize>)
    ensures
        match r {
            Some(i) => first_match_from(text@, pat@, 0) == Some(i as int),
            None => first_match_from(text@, pat@, 0) is None,
        },
{
    let n = text.unicode_len();
    let m = pat.unicode_len();
    if m > n {
        return None;
    }
    let mut i: usize = 0;
    while i <= n - m
        invariant
            m <= n,
            n == text@.len(),
            m == pat@.len(),
            i <= n - m + 1,
            first_match_from(text@, pat@, 0) == first_match_from(text@, pat@, i as int),
        decreases n - m - i + 1,
    {
        if match_at(text, pat, i) {
            return Some(i);
        }
        proof {
            assert(pat@.len() > 0) by {
                if pat@.len() == 0 {
                    assert(text@.subrange(i as int, i as int) =~= pat@);
                }
            }
            assert(first_match_from(text@, pat@, i as int) == first_match_from(
                text@,
                pat@,
                i + 1,
            ));
        }
        i = i + 1;
    }
    None
}

/// Replaces the first literal occurrence of `pat` in `text` by `repl`;
/// returns `text` unchanged when `pat` does not occur. When the same word
/// occurs more than once, the earliest occurrence is the one replaced,
/// whether or not it is the one that was detected.
pub fn replace_first(text: &str, pat: &str, repl: &str) -> (r: String)
    ensures
        r@ == replaced_first(text@, pat@, repl@),
{
    match find_first(text, pat) {
        None => text.to_owned(),
        Some(i) => {
            proof {
                lemma_first_match_some(text@, pat@, 0, i as int);
            }
            let n = text.unicode_len();
            let m = pat.unicode_len();
            let prefix = text.substring_char(0, i);
            let suffix = text.substring_char(i + m, n);
            let mut r = prefix.to_owned();
            r.append(repl);
            r.append(suffix);
            proof {
                assert(r@ =~= replaced_first(text@, pat@, repl@));
            }
            r
        },
    }
}

/// A page redacted in place: each entity's word, later entities first,
/// replaced at its first literal occurrence by the label placeholder.
pub open spec fn page_redacted(text: Seq<char>, ents: Seq<EntityView>) -> Seq<char>
    decreases ents.len(),
{
    if ents.len() == 0 {
        text
    } else {
        replaced_first(
            page_redacted(text, ents.drop_first()),
            ents.first().word,
            placeholder(ents.first().entity),
        )
    }
}

/// Rewrites one page's text: every entity's literal word, in reverse
/// detection order, replaced by `[<label>]`.
pub fn redact_page_text(text: &str, entities: &Vec<Entity>) -> (r: String)
    ensures
        r@ == page_redacted(text@, entities.deep_view()),
{
    let ghost dv = entities.deep_view();
    let mut buffer = text.to_owned();
    let mut j: usize = entities.len();
    while j > 0
        invariant
            j <= entities.len(),
            dv == entities.deep_view(),
            dv.len() == entities.len(),
            buffer@ == page_redacted(text@, dv.subrange(j as int, dv.len() as int)),
        decreases j,
    {
        j = j - 1;
        let e = &entities[j];
        let repl = make_placeholder(&e.entity);
        let nb = replace_first(buffer.as_str(), e.word.as_str(), repl.as_str());
        proof {
            let suffix = dv.subrange(j as int, dv.len() as int);
            assert(suffix.drop_first() =~= dv.subrange(j + 1, dv.len() as int));
            assert(suffix.first() == dv[j as int]);
        }
        buffer = nb;
    }
    proof {
        assert(dv.subrange(0, dv.len() as int) =~= dv);
    }
    buffer
}

/// What document redaction produces: each page independently redacted with
/// the entities detected on that page, in input page order.
pub open spec fn document_redacted(
    pages: Seq<Seq<char>>,
    page_tokens: Seq<Seq<TokenPredictionView>>,
    labels: Seq<Seq<char>>,
) -> Seq<Seq<char>> {
    Seq::new(pages.len(), |p: int| page_redacted(pages[p], merged_entities(page_tokens[p], labels)))
}

/// Redacts a whole document given each page's text and each page's token
/// predictions: pages are processed independently and returned in input
/// order, each with its detected entity words replaced by placeholders.
pub fn redact_document(
    pages: &Vec<String>,
    page_tokens: &Vec<Vec<TokenPrediction>>,
    labels: &LabelTable,
) -> (out: Vec<String>)
    requires
        pages.len() == page_tokens.len(),
        forall|p: int|
            0 <= p < page_tokens.len() ==> valid_label_ids(
                #[trigger] page_tokens.deep_view()[p],
                labels@,
            ),
    ensures
        out.deep_view() == document_redacted(pages.deep_view(), page_tokens.deep_view(), labels@),
{
    let mut out: Vec<String> = Vec::new();
    let mut p: usize = 0;
    while p < pages.len()
        invariant
            p <= pages.len(),
            pages.len() == page_tokens.len(),
            forall|q: int|
                0 <= q < page_tokens.len() ==> valid_label_ids(
                    #[trigger] page_tokens.deep_view()[q],
                    labels@,
                ),
            out.len() == p,
            forall|q: int|
                0 <= q < p ==> out.deep_view()[q] == page_redacted(
                    pages.deep_view()[q],
                    merged_entities(#[trigger] page_tokens.deep_view()[q], labels@),
                ),
        decreases pages.len() - p,
    {
        proof {
            assert(page_tokens.deep_view()[p as int] == page_tokens@[p as int].deep_view());
        }
        let entities = detect_entities(&page_tokens[p], labels);
        let sanitized = redact_page_text(pages[p].as_str(), &entities);
        out.push(sanitized);
        p = p + 1;
    }
    proof {
        assert(out.deep_view() =~~= document_redacted(
            pages.deep_view(),
            page_tokens.deep_view(),
            labels@,
        ));
    }
    out
}

/// Pages are independent: a page on which detection finds no entity comes
/// out of document redaction unchanged, whatever the other pages hold.
pub proof fn lemma_untouched_page_unchanged(
    pages: Seq<Seq<char>>,
    page_tokens: Seq<Seq<TokenPredictionView>>,
    labels: Seq<Seq<char>>,
    p: int,
)
    requires
        pages.len() == page_tokens.len(),
        0 <= p < pages.len(),
        merged_entities(page_tokens[p], labels).len() == 0,
    ensures
        document_redacted(pages, page_tokens, labels)[p] == pages[p],
{
}

/// A document on none of whose pages detection finds an entity is returned
/// with every page's text unchanged.
pub proof fn lemma_document_without_entities_unchanged(
    pages: Seq<Seq<char>>,
    page_tokens: Seq<Seq<TokenPredictionView>>,
    labels: Seq<Seq<char>>,
)
    requires
        pages.len() == page_tokens.len(),
        forall|p: int|
            0 <= p < pages.len() ==> merged_entities(
                #[trigger] page_tokens[p],
                labels,
            ).len() == 0,
    ensures
        document_redacted(pages, page_tokens, labels) == pages,
{
    assert(document_redacted(pages, page_tokens, labels) =~~= pages);
}

} // verus!
