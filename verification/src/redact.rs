use vstd::prelude::*;

use crate::errors::PiiError;
use crate::labels::LabelTable;
use crate::merge::{
    detect_entities, lemma_detect_entities_wf, merged_entities, valid_label_ids, wf_entities,
    wf_tokens, Entity, EntityView, TokenPrediction,
};

verus! {

/// The placeholder that replaces a span labeled `label`: the label name in
/// square brackets.
pub open spec fn placeholder(label: Seq<char>) -> Seq<char> {
    seq!['['] + label + seq![']']
}

/// Entity spans lie inside a text of length `n`, in detection order, without
/// overlap.
pub open spec fn wf_spans(ents: Seq<EntityView>, n: int) -> bool {
    &&& forall|i: int|
        0 <= i < ents.len() ==> 0 <= (#[trigger] ents[i]).start && ents[i].start <= ents[i].end
            && ents[i].end <= n
    &&& forall|i: int|
        0 <= i && i + 1 < ents.len() ==> (#[trigger] ents[i]).end <= ents[i + 1].start
}

/// One replacement: the span `[e.start, e.end)` of `text` replaced by the
/// placeholder for `e`'s label.
pub open spec fn spliced(text: Seq<char>, e: EntityView) -> Seq<char> {
    text.subrange(0, e.start) + placeholder(e.entity) + text.subrange(e.end, text.len() as int)
}

/// The sanitized text: every span of `ents` replaced by its placeholder,
/// later spans first, so that a replacement never shifts the offsets of the
/// spans not yet processed.
pub open spec fn redacted_text(text: Seq<char>, ents: Seq<EntityView>) -> Seq<char>
    decreases ents.len(),
{
    if ents.len() == 0 {
        text
    } else {
        spliced(redacted_text(text, ents.drop_first()), ents.first())
    }
}

/// A well-formed entity list over `text` offers well-formed spans to the
/// redactor.
pub proof fn lemma_wf_entities_spans(ents: Seq<EntityView>, text: Seq<char>)
    requires
        wf_entities(ents, text),
    ensures
        wf_spans(ents, text.len() as int),
{
}

/// Well-formed spans survive a suffix restriction.
proof fn lemma_wf_spans_suffix(ents: Seq<EntityView>, n: int, i: int)
    requires
        wf_spans(ents, n),
        0 <= i <= ents.len(),
    ensures
        wf_spans(ents.subrange(i, ents.len() as int), n),
{
    let suffix = ents.subrange(i, ents.len() as int);
    assert forall|k: int| 0 <= k < suffix.len() implies 0 <= (#[trigger] suffix[k]).start
        && suffix[k].start <= suffix[k].end && suffix[k].end <= n by {
        assert(suffix[k] == ents[i + k]);
    }
    assert forall|k: int| 0 <= k && k + 1 < suffix.len() implies (#[trigger] suffix[k]).end
        <= suffix[k + 1].start by {
        assert(suffix[k] == ents[i + k]);
        assert(suffix[k + 1] == ents[i + k + 1]);
    }
}

/// Replacing well-formed spans never shortens the text below the first
/// span's start; with no spans it keeps the length.
proof fn lemma_redacted_min_len(text: Seq<char>, ents: Seq<EntityView>)
    requires
        wf_spans(ents, text.len() as int),
    ensures
        ents.len() == 0 ==> redacted_text(text, ents).len() == text.len(),
        ents.len() > 0 ==> redacted_text(text, ents).len() >= ents.first().start + 2,
    decreases ents.len(),
{
    if ents.len() > 0 {
        let rest = ents.drop_first();
        assert(rest =~= ents.subrange(1, ents.len() as int));
        lemma_wf_spans_suffix(ents, text.len() as int, 1);
        lemma_redacted_min_len(text, rest);
    }
}

/// `w` occurs literally in `t` starting at position `i`.
pub open spec fn occurs_at(t: Seq<char>, w: Seq<char>, i: int) -> bool {
    0 <= i && i + w.len() <= t.len() && t.subrange(i, i + w.len() as int) == w
}

/// `w` occurs literally somewhere in `t`.
pub open spec fn occurs(t: Seq<char>, w: Seq<char>) -> bool {
    exists|i: int| occurs_at(t, w, i)
}

/// An occurrence in a concatenation lies in the left part, lies in the
/// right part, or covers the boundary — and then holds the boundary
/// characters.
proof fn lemma_occurs_concat(a: Seq<char>, b: Seq<char>, w: Seq<char>, i: int)
    requires
        occurs_at(a + b, w, i),
        w.len() > 0,
    ensures
        (i + w.len() <= a.len() && occurs_at(a, w, i)) || (i >= a.len() && occurs_at(
            b,
            w,
            i - a.len(),
        )) || (i < a.len() && i + w.len() > a.len() && w[a.len() - 1 - i] == a.last() && w[a.len()
            - i] == b.first()),
{
    if i + w.len() <= a.len() {
        assert(a.subrange(i, i + w.len() as int) =~= (a + b).subrange(i, i + w.len() as int));
    } else if i >= a.len() {
        assert(b.subrange(i - a.len(), i - a.len() + w.len() as int) =~= (a + b).subrange(
            i,
            i + w.len() as int,
        ));
    } else {
        assert(w[a.len() - 1 - i] == (a + b).subrange(i, i + w.len() as int)[a.len() - 1 - i]);
        assert(w[a.len() - i] == (a + b).subrange(i, i + w.len() as int)[a.len() - i]);
    }
}

/// Replacement never touches the text before the first span.
proof fn lemma_redacted_prefix(text: Seq<char>, ents: Seq<EntityView>)
    requires
        wf_spans(ents, text.len() as int),
    ensures
        ents.len() == 0 ==> redacted_text(text, ents) == text,
        ents.len() > 0 ==> redacted_text(text, ents).subrange(0, ents[0].start) == text.subrange(
            0,
            ents[0].start,
        ),
    decreases ents.len(),
{
    if ents.len() > 0 {
        let rest = ents.drop_first();
        assert(rest =~= ents.subrange(1, ents.len() as int));
        lemma_wf_spans_suffix(ents, text.len() as int, 1);
        lemma_redacted_prefix(text, rest);
        lemma_redacted_min_len(text, rest);
        let tail = redacted_text(text, rest);
        let e = ents.first();
        if rest.len() > 0 {
            assert(e.end <= rest[0].start);
            assert(tail.subrange(0, e.start) =~= tail.subrange(0, rest[0].start).subrange(
                0,
                e.start,
            ));
            assert(text.subrange(0, rest[0].start).subrange(0, e.start) =~= text.subrange(
                0,
                e.start,
            ));
        }
        assert(redacted_text(text, ents).subrange(0, e.start) =~= tail.subrange(0, e.start));
    }
}

/// Spans of a well-formed list are ordered pairwise, not only between
/// neighbours.
proof fn lemma_wf_spans_ordered(ents: Seq<EntityView>, n: int, k: int, l: int)
    requires
        wf_spans(ents, n),
        0 <= k < l < ents.len(),
    ensures
        ents[k].end <= ents[l].start,
    decreases l - k,
{
    if k + 1 < l {
        lemma_wf_spans_ordered(ents, n, k + 1, l);
    }
}

/// Position `p` of `w` in the original text accounts for an occurrence of
/// `w` at position `i` of the redacted text: it is untouched by every span,
/// and it lies before the first span (at the same place) or past its end.
spec fn survives_to(
    text: Seq<char>,
    ents: Seq<EntityView>,
    w: Seq<char>,
    i: int,
    p: int,
) -> bool {
    &&& occurs_at(text, w, p)
    &&& forall|k: int|
        0 <= k < ents.len() ==> p + w.len() <= (#[trigger] ents[k]).start || p >= ents[k].end
    &&& (ents.len() == 0 ==> p == i)
    &&& (ents.len() > 0 ==> ((p == i && i + w.len() <= ents[0].start) || p >= ents[0].end))
}

/// Every occurrence of a bracket-free word in the redacted text that is not
/// a substring of a label name stems from an occurrence in the original
/// text that no span touches.
proof fn lemma_redacted_occurrence(text: Seq<char>, ents: Seq<EntityView>, w: Seq<char>, i: int)
    requires
        wf_spans(ents, text.len() as int),
        w.len() > 0,
        forall|j: int| 0 <= j < w.len() ==> w[j] != '[' && w[j] != ']',
        forall|k: int| 0 <= k < ents.len() ==> !occurs((#[trigger] ents[k]).entity, w),
        occurs_at(redacted_text(text, ents), w, i),
    ensures
        exists|p: int| survives_to(text, ents, w, i, p),
    decreases ents.len(),
{
    if ents.len() == 0 {
        assert(survives_to(text, ents, w, i, i));
    } else {
        let rest = ents.drop_first();
        let e = ents.first();
        assert(rest =~= ents.subrange(1, ents.len() as int));
        lemma_wf_spans_suffix(ents, text.len() as int, 1);
        lemma_redacted_prefix(text, rest);
        lemma_redacted_min_len(text, rest);
        let tail = redacted_text(text, rest);
        assert(e.end <= tail.len()) by {
            if rest.len() > 0 {
                assert(e.end <= rest[0].start);
            }
        }
        let pre = tail.subrange(0, e.start);
        let ph = placeholder(e.entity);
        let post = tail.subrange(e.end, tail.len() as int);
        assert(redacted_text(text, ents) == spliced(tail, e));
        assert(spliced(tail, e) =~= pre + (ph + post));
        assert(pre =~= text.subrange(0, e.start)) by {
            if rest.len() > 0 {
                assert(e.start <= rest[0].start);
                assert(pre =~= tail.subrange(0, rest[0].start).subrange(0, e.start));
                assert(text.subrange(0, rest[0].start).subrange(0, e.start) =~= text.subrange(
                    0,
                    e.start,
                ));
            }
        }
        assert(ph[0] == '[' && ph[ph.len() - 1] == ']' && ph.len() == e.entity.len() + 2) by {
            assert(ph =~= seq!['['] + e.entity + seq![']']);
        }
        lemma_occurs_concat(pre, ph + post, w, i);
        if i + w.len() <= pre.len() && occurs_at(pre, w, i) {
            assert(occurs_at(text, w, i)) by {
                assert(text.subrange(i, i + w.len() as int) =~= pre.subrange(
                    i,
                    i + w.len() as int,
                ));
            }
            assert forall|k: int| 0 <= k < ents.len() implies i + w.len() <= (
            #[trigger] ents[k]).start || i >= ents[k].end by {
                if k > 0 {
                    lemma_wf_spans_ordered(ents, text.len() as int, 0, k);
                }
            }
            assert(survives_to(text, ents, w, i, i));
        } else if i >= pre.len() {
            let j = i - pre.len();
            assert(occurs_at(ph + post, w, j));
            lemma_occurs_concat(ph, post, w, j);
            if j + w.len() <= ph.len() && occurs_at(ph, w, j) {
                if j == 0 {
                    assert(w[0] == ph.subrange(j, j + w.len() as int)[0]);
                    assert(false);
                } else if j + w.len() == ph.len() {
                    assert(w[w.len() - 1] == ph.subrange(j, j + w.len() as int)[w.len() - 1]);
                    assert(false);
                } else {
                    assert(occurs_at(e.entity, w, j - 1)) by {
                        assert(e.entity.subrange(j - 1, j - 1 + w.len() as int) =~= ph.subrange(
                            j,
                            j + w.len() as int,
                        ));
                    }
                    assert(occurs(e.entity, w));
                    assert(false);
                }
            } else if j >= ph.len() {
                let q = j - ph.len();
                assert(occurs_at(tail, w, e.end + q)) by {
                    assert(tail.subrange(e.end + q, e.end + q + w.len() as int) =~= post.subrange(
                        q,
                        q + w.len() as int,
                    ));
                }
                assert forall|k: int| 0 <= k < rest.len() implies !occurs(
                    (#[trigger] rest[k]).entity,
                    w,
                ) by {
                    assert(rest[k] == ents[k + 1]);
                }
                lemma_redacted_occurrence(text, rest, w, e.end + q);
                let p = choose|p: int| #[trigger] survives_to(text, rest, w, e.end + q, p);
                assert(p >= e.end) by {
                    if rest.len() > 0 {
                        if !(p == e.end + q && e.end + q + w.len() <= rest[0].start) {
                            assert(p >= rest[0].end);
                            assert(e.end <= rest[0].start <= rest[0].end);
                        }
                    }
                }
                assert forall|k: int| 0 <= k < ents.len() implies p + w.len() <= (
                #[trigger] ents[k]).start || p >= ents[k].end by {
                    if k > 0 {
                        assert(rest[k - 1] == ents[k]);
                    }
                }
                assert(survives_to(text, ents, w, i, p));
            } else {
                assert(w[ph.len() - 1 - j] == ']');
                assert(false);
            }
        } else {
            assert(w[pre.len() - i] == (ph + post).first());
            assert((ph + post).first() == '[');
            assert(false);
        }
    }
}

/// A detected word is gone after redaction: a word that holds no square
/// bracket, is not a substring of any entity's label name, and occurs in
/// the text only where a detected span covers it, does not occur in the
/// redacted text at all.
pub proof fn lemma_redacted_free_of_word(text: Seq<char>, ents: Seq<EntityView>, w: Seq<char>)
    requires
        wf_spans(ents, text.len() as int),
        w.len() > 0,
        forall|j: int| 0 <= j < w.len() ==> w[j] != '[' && w[j] != ']',
        forall|k: int| 0 <= k < ents.len() ==> !occurs((#[trigger] ents[k]).entity, w),
        forall|p: int|
            occurs_at(text, w, p) ==> exists|k: int|
                0 <= k < ents.len() && (#[trigger] ents[k]).start < p + w.len()
                    && p < ents[k].end,
    ensures
        !occurs(redacted_text(text, ents), w),
{
    if occurs(redacted_text(text, ents), w) {
        let i = choose|i: int| occurs_at(redacted_text(text, ents), w, i);
        lemma_redacted_occurrence(text, ents, w, i);
        let p = choose|p: int| #[trigger] survives_to(text, ents, w, i, p);
        assert(occurs_at(text, w, p));
        let k = choose|k: int|
            0 <= k < ents.len() && (#[trigger] ents[k]).start < p + w.len() && p < ents[k].end;
        assert(p + w.len() <= ents[k].start || p >= ents[k].end);
        assert(false);
    }
}

/// Builds the placeholder string for a label.
pub fn make_placeholder(label: &String) -> (p: String)
    ensures
        p@ == placeholder(label@),
{
    let mut p = "[".to_owned();
    p.append(label.as_str());
    p.append("]");
    proof {
        reveal_strlit("[");
        reveal_strlit("]");
        assert(p@ =~= placeholder(label@));
    }
    p
}

/// Applies entity spans to a text buffer: each span `[start, end)` is
/// replaced by `[<label>]`, processing the spans in descending start order
/// (the reverse of detection order). Returns the sanitized copy, or a
/// `SpanConflict` error when the spans are not in detection order within the
/// text — exactly then.
pub fn apply(text: &str, entities: &Vec<Entity>) -> (result: Result<String, PiiError>)
    ensures
        match result {
            Ok(s) => wf_spans(entities.deep_view(), text@.len() as int) && s@ == redacted_text(
                text@,
                entities.deep_view(),
            ),
            Err(e) => !wf_spans(entities.deep_view(), text@.len() as int) && e is SpanConflict,
        },
{
    let ghost dv = entities.deep_view();
    let n = text.unicode_len();
    let mut i: usize = 0;
    while i < entities.len()
        invariant
            i <= entities.len(),
            n == text@.len(),
            dv == entities.deep_view(),
            dv.len() == entities.len(),
            forall|k: int|
                0 <= k < i ==> 0 <= (#[trigger] dv[k]).start && dv[k].start <= dv[k].end
                    && dv[k].end <= n,
            forall|k: int|
                0 <= k && k + 1 <= i && k + 1 < dv.len() ==> (#[trigger] dv[k]).end <= dv[k
                    + 1].start,
        decreases entities.len() - i,
    {
        let e = &entities[i];
        if !(e.start <= e.end && e.end <= n) {
            proof {
                assert(!wf_spans(dv, text@.len() as int)) by {
                    if wf_spans(dv, text@.len() as int) {
                        assert(0 <= (dv[i as int]).start && dv[i as int].start <= dv[
                            i as int].end && dv[i as int].end <= n);
                    }
                }
            }
            return Err(PiiError::SpanConflict { entity_index: i });
        }
        if i + 1 < entities.len() {
            if !(e.end <= entities[i + 1].start) {
                proof {
                    assert(!wf_spans(dv, text@.len() as int)) by {
                        if wf_spans(dv, text@.len() as int) {
                            assert((dv[i as int]).end <= dv[i as int + 1].start);
                        }
                    }
                }
                return Err(PiiError::SpanConflict { entity_index: i });
            }
        }
        i = i + 1;
    }
    proof {
        assert(wf_spans(dv, text@.len() as int));
    }
    let mut buffer = text.to_owned();
    let mut j: usize = entities.len();
    while j > 0
        invariant
            j <= entities.len(),
            dv == entities.deep_view(),
            dv.len() == entities.len(),
            wf_spans(dv, text@.len() as int),
            buffer@ == redacted_text(text@, dv.subrange(j as int, dv.len() as int)),
        decreases j,
    {
        j = j - 1;
        let ghost suffix = dv.subrange(j as int, dv.len() as int);
        let ghost rest = dv.subrange(j + 1, dv.len() as int);
        proof {
            assert(suffix.drop_first() =~= rest);
            assert(suffix.first() == dv[j as int]);
            lemma_wf_spans_suffix(dv, text@.len() as int, j + 1);
            lemma_redacted_min_len(text@, rest);
            if rest.len() > 0 {
                assert(rest.first() == dv[j + 1]);
                assert(dv[j as int].end <= dv[j + 1].start);
            }
            assert(buffer@.len() >= dv[j as int].end);
        }
        let e = &entities[j];
        let buf_len = buffer.as_str().unicode_len();
        let repl = make_placeholder(&e.entity);
        let s = buffer.as_str();
        let prefix = s.substring_char(0, e.start);
        let suffix_str = s.substring_char(e.end, buf_len);
        let mut nb = prefix.to_owned();
        nb.append(repl.as_str());
        nb.append(suffix_str);
        proof {
            assert(nb@ =~= spliced(buffer@, dv[j as int]));
            assert(nb@ == redacted_text(text@, suffix));
        }
        buffer = nb;
    }
    proof {
        assert(dv.subrange(0, dv.len() as int) =~= dv);
    }
    Ok(buffer)
}

/// Entity detection followed by text redaction: the sanitized copy of `text`
/// with every detected span replaced by its label placeholder.
pub fn detect_and_redact_text(
    text: &str,
    tokens: &Vec<TokenPrediction>,
    labels: &LabelTable,
) -> (result: Result<String, PiiError>)
    requires
        valid_label_ids(tokens.deep_view(), labels@),
    ensures
        match result {
            Ok(s) => wf_spans(merged_entities(tokens.deep_view(), labels@), text@.len() as int)
                && s@ == redacted_text(text@, merged_entities(tokens.deep_view(), labels@)),
            Err(e) => !wf_spans(merged_entities(tokens.deep_view(), labels@), text@.len() as int)
                && e is SpanConflict,
        },
        wf_tokens(tokens.deep_view(), text@) ==> result is Ok,
{
    let entities = detect_entities(tokens, labels);
    proof {
        if wf_tokens(tokens.deep_view(), text@) {
            lemma_detect_entities_wf(tokens.deep_view(), labels@, text@);
            lemma_wf_entities_spans(merged_entities(tokens.deep_view(), labels@), text@);
        }
    }
    apply(text, &entities)
}

} // verus!
