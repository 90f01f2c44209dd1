use vstd::prelude::*;

use crate::labels::{sentinel_label, LabelTable};

verus! {

/// One per-token label prediction for a single input text, as the inference
/// gateway hands it to the merger. `offset_start` and `offset_end` are
/// character offsets into the input text; `score` is a fixed-point
/// probability in millionths (`1_000_000` stands for probability one).
#[derive(Debug, Clone, PartialEq)]
pub struct TokenPrediction {
    pub token_text: String,
    pub offset_start: usize,
    pub offset_end: usize,
    pub label_id: usize,
    pub score: u32,
    pub is_special_token: bool,
}

/// The mathematical value of a `TokenPrediction`.
pub ghost struct TokenPredictionView {
    pub token_text: Seq<char>,
    pub offset_start: int,
    pub offset_end: int,
    pub label_id: int,
    pub score: u32,
    pub is_special_token: bool,
}

impl View for TokenPrediction {
    type V = TokenPredictionView;

    open spec fn view(&self) -> TokenPredictionView {
        TokenPredictionView {
            token_text: self.token_text@,
            offset_start: self.offset_start as int,
            offset_end: self.offset_end as int,
            label_id: self.label_id as int,
            score: self.score,
            is_special_token: self.is_special_token,
        }
    }
}

impl DeepView for TokenPrediction {
    type V = TokenPredictionView;

    open spec fn deep_view(&self) -> TokenPredictionView {
        self.view()
    }
}

/// A merged, labeled character span: one detected PII instance. `start` and
/// `end` are character offsets into the original text, `index` is the
/// position of the entity's first token in the token sequence, and `score`
/// is the running mean of the merged tokens' scores, in millionths.
#[derive(Debug, PartialEq)]
pub struct Entity {
    pub word: String,
    pub entity: String,
    pub score: u32,
    pub start: usize,
    pub end: usize,
    pub index: usize,
}

/// The mathematical value of an `Entity`.
pub ghost struct EntityView {
    pub word: Seq<char>,
    pub entity: Seq<char>,
    pub score: u32,
    pub start: int,
    pub end: int,
    pub index: int,
}

impl View for Entity {
    type V = EntityView;

    open spec fn view(&self) -> EntityView {
        EntityView {
            word: self.word@,
            entity: self.entity@,
            score: self.score,
            start: self.start as int,
            end: self.end as int,
            index: self.index as int,
        }
    }
}

impl DeepView for Entity {
    type V = EntityView;

    open spec fn deep_view(&self) -> EntityView {
        self.view()
    }
}

impl Clone for Entity {
    fn clone(&self) -> (res: Entity)
        ensures
            res == *self,
    {
        Entity {
            word: self.word.clone(),
            entity: self.entity.clone(),
            score: self.score,
            start: self.start,
            end: self.end,
            index: self.index,
        }
    }
}

/// Every token's label id resolves inside the table.
pub open spec fn valid_label_ids(tokens: Seq<TokenPredictionView>, labels: Seq<Seq<char>>) -> bool {
    forall|i: int|
        0 <= i < tokens.len() ==> 0 <= (#[trigger] tokens[i]).label_id < labels.len()
}

/// A token survives filtering iff it is not a special token and its label is
/// not the sentinel "no entity" label.
pub open spec fn keeps(t: TokenPredictionView, labels: Seq<Seq<char>>) -> bool {
    !t.is_special_token && labels[t.label_id] != sentinel_label()
}

/// The single-token entity a kept token at position `idx` contributes.
pub open spec fn entity_of(
    t: TokenPredictionView,
    labels: Seq<Seq<char>>,
    idx: int,
) -> EntityView {
    EntityView {
        word: t.token_text,
        entity: labels[t.label_id],
        score: t.score,
        start: t.offset_start,
        end: t.offset_end,
        index: idx,
    }
}

/// The candidate list: kept tokens, in order, as single-token entities, each
/// carrying the position it had in the full token sequence.
pub open spec fn candidate_entities(
    tokens: Seq<TokenPredictionView>,
    labels: Seq<Seq<char>>,
) -> Seq<EntityView>
    decreases tokens.len(),
{
    if tokens.len() == 0 {
        Seq::empty()
    } else {
        let front = candidate_entities(tokens.drop_last(), labels);
        if keeps(tokens.last(), labels) {
            front.push(entity_of(tokens.last(), labels, tokens.len() - 1))
        } else {
            front
        }
    }
}

/// Two entities merge iff the next one starts exactly where the current one
/// ends and both carry the same label.
pub open spec fn mergeable(cur: EntityView, next: EntityView) -> bool {
    next.start == cur.end && next.entity == cur.entity
}

/// The entity obtained by absorbing `next` into `cur`: words concatenate,
/// the span extends, and the score becomes the running mean of the two.
pub open spec fn absorbed(cur: EntityView, next: EntityView) -> EntityView {
    EntityView {
        word: cur.word + next.word,
        entity: cur.entity,
        score: (((cur.score + next.score) as int) / 2) as u32,
        start: cur.start,
        end: next.end,
        index: cur.index,
    }
}

/// One step of the left-to-right merge pass: `e` either extends the entity
/// under construction or opens a new one.
pub open spec fn merge_step(acc: Seq<EntityView>, e: EntityView) -> Seq<EntityView> {
    if acc.len() > 0 && mergeable(acc.last(), e) {
        acc.update(acc.len() - 1, absorbed(acc.last(), e))
    } else {
        acc.push(e)
    }
}

/// The whole merge pass over a candidate list.
pub open spec fn merge_pass(cands: Seq<EntityView>) -> Seq<EntityView>
    decreases cands.len(),
{
    if cands.len() == 0 {
        Seq::empty()
    } else {
        merge_step(merge_pass(cands.drop_last()), cands.last())
    }
}

/// What entity detection returns for a token sequence: filter, resolve
/// labels, then merge character-adjacent same-label runs.
pub open spec fn merged_entities(
    tokens: Seq<TokenPredictionView>,
    labels: Seq<Seq<char>>,
) -> Seq<EntityView> {
    merge_pass(candidate_entities(tokens, labels))
}

/// Tokens describe `text`: every non-special token's span is a non-empty
/// in-bounds range whose characters are exactly the token's text, and
/// non-special tokens stand in left-to-right span order.
pub open spec fn wf_tokens(tokens: Seq<TokenPredictionView>, text: Seq<char>) -> bool {
    &&& forall|i: int|
        0 <= i < tokens.len() && !(#[trigger] tokens[i]).is_special_token ==> 0 <= tokens[i].offset_start
            && tokens[i].offset_start < tokens[i].offset_end && tokens[i].offset_end <= text.len()
            && tokens[i].token_text == text.subrange(tokens[i].offset_start, tokens[i].offset_end)
    &&& forall|i: int, j: int|
        0 <= i < j < tokens.len() && !(#[trigger] tokens[i]).is_special_token && !(
        #[trigger] tokens[j]).is_special_token ==> tokens[i].offset_end <= tokens[j].offset_start
}

/// Entity spans are non-empty, in bounds, pairwise ordered without overlap,
/// and each entity's word is exactly the text of its span.
pub open spec fn wf_entities(ents: Seq<EntityView>, text: Seq<char>) -> bool {
    &&& forall|k: int|
        0 <= k < ents.len() ==> 0 <= (#[trigger] ents[k]).start && ents[k].start < ents[k].end
            && ents[k].end <= text.len() && ents[k].word == text.subrange(
            ents[k].start,
            ents[k].end,
        )
    &&& forall|k: int, l: int|
        0 <= k < l < ents.len() ==> (#[trigger] ents[k]).end <= (#[trigger] ents[l]).start
}

/// Every entity stems from a kept token: its `index` is the position of a
/// non-special token whose resolved label is the entity's label, and that
/// label is never the sentinel.
pub open spec fn entities_from_tokens(
    ents: Seq<EntityView>,
    tokens: Seq<TokenPredictionView>,
    labels: Seq<Seq<char>>,
) -> bool {
    forall|k: int|
        0 <= k < ents.len() ==> 0 <= (#[trigger] ents[k]).index && ents[k].index < tokens.len()
            && !tokens[ents[k].index].is_special_token
            && ents[k].entity == labels[tokens[ents[k].index].label_id]
            && ents[k].entity != sentinel_label()
}

/// Each candidate carries the offsets, word and score of the token it stems
/// from, and candidate token positions increase strictly.
proof fn lemma_candidates_from_tokens(tokens: Seq<TokenPredictionView>, labels: Seq<Seq<char>>)
    ensures
        entities_from_tokens(candidate_entities(tokens, labels), tokens, labels),
        forall|k: int, l: int|
            0 <= k < l < candidate_entities(tokens, labels).len() ==> (
            #[trigger] candidate_entities(tokens, labels)[k]).index < (
            #[trigger] candidate_entities(tokens, labels)[l]).index,
        forall|k: int|
            0 <= k < candidate_entities(tokens, labels).len() ==> {
                let e = #[trigger] candidate_entities(tokens, labels)[k];
                e.word == tokens[e.index].token_text && e.start == tokens[e.index].offset_start
                    && e.end == tokens[e.index].offset_end && e.score == tokens[e.index].score
            },
    decreases tokens.len(),
{
    if tokens.len() > 0 {
        let front = tokens.drop_last();
        lemma_candidates_from_tokens(front, labels);
        let cf = candidate_entities(front, labels);
        let c = candidate_entities(tokens, labels);
        assert forall|k: int| 0 <= k < cf.len() implies cf[k].index < front.len()
            && tokens[cf[k].index] == front[cf[k].index] by {
            assert(front[cf[k].index] == tokens[cf[k].index]);
        }
        if keeps(tokens.last(), labels) {
            assert(c == cf.push(entity_of(tokens.last(), labels, tokens.len() - 1)));
        } else {
            assert(c == cf);
        }
    }
}

/// When the tokens describe `text`, the candidate list is a well-formed
/// entity list over `text`.
proof fn lemma_candidates_wf(
    tokens: Seq<TokenPredictionView>,
    labels: Seq<Seq<char>>,
    text: Seq<char>,
)
    requires
        wf_tokens(tokens, text),
    ensures
        wf_entities(candidate_entities(tokens, labels), text),
        entities_from_tokens(candidate_entities(tokens, labels), tokens, labels),
{
    lemma_candidates_from_tokens(tokens, labels);
    let c = candidate_entities(tokens, labels);
    assert forall|k: int| 0 <= k < c.len() implies 0 <= (#[trigger] c[k]).start
        && c[k].start < c[k].end && c[k].end <= text.len()
        && c[k].word == text.subrange(c[k].start, c[k].end) by {
        let t = tokens[c[k].index];
        assert(!t.is_special_token);
    }
    assert forall|k: int, l: int| 0 <= k < l < c.len() implies (#[trigger] c[k]).end <= (
    #[trigger] c[l]).start by {
        assert(c[k].index < c[l].index);
        assert(!tokens[c[k].index].is_special_token && !tokens[c[l].index].is_special_token);
    }
}

/// The merge pass keeps the entity list well formed and keeps every entity
/// anchored to a kept token; the last output always ends where the last
/// candidate ends.
proof fn lemma_merge_pass_wf(
    cands: Seq<EntityView>,
    tokens: Seq<TokenPredictionView>,
    labels: Seq<Seq<char>>,
    text: Seq<char>,
)
    requires
        wf_entities(cands, text),
        entities_from_tokens(cands, tokens, labels),
    ensures
        wf_entities(merge_pass(cands), text),
        entities_from_tokens(merge_pass(cands), tokens, labels),
        merge_pass(cands).len() == 0 <==> cands.len() == 0,
        cands.len() > 0 ==> merge_pass(cands).last().end == cands.last().end,
    decreases cands.len(),
{
    if cands.len() > 0 {
        let front = cands.drop_last();
        let e = cands.last();
        assert(wf_entities(front, text) && entities_from_tokens(front, tokens, labels)) by {
            assert forall|k: int| 0 <= k < front.len() implies front[k] == cands[k] by {}
        }
        lemma_merge_pass_wf(front, tokens, labels, text);
        let m = merge_pass(front);
        let r = merge_pass(cands);
        assert(r == merge_step(m, e));
        if m.len() > 0 && mergeable(m.last(), e) {
            let a = absorbed(m.last(), e);
            assert(r == m.update(m.len() - 1, a));
            assert(a.word == text.subrange(a.start, a.end)) by {
                assert(m.last().word == text.subrange(m.last().start, m.last().end));
                assert(e.word == text.subrange(e.start, e.end));
                assert(e.start == m.last().end);
                assert(text.subrange(a.start, a.end) =~= text.subrange(
                    m.last().start,
                    m.last().end,
                ) + text.subrange(e.start, e.end));
            }
            assert(wf_entities(r, text)) by {
                assert forall|k: int, l: int| 0 <= k < l < r.len() implies (#[trigger] r[k]).end
                    <= (#[trigger] r[l]).start by {
                    if l < r.len() - 1 {
                        assert(r[k] == m[k] && r[l] == m[l]);
                    } else {
                        assert(r[k] == m[k] && r[l] == a);
                        assert(m[k].end <= m.last().start || k == m.len() - 1);
                    }
                }
            }
        } else {
            assert(r == m.push(e));
            assert(wf_entities(r, text)) by {
                assert forall|k: int, l: int| 0 <= k < l < r.len() implies (#[trigger] r[k]).end
                    <= (#[trigger] r[l]).start by {
                    if l < r.len() - 1 {
                        assert(r[k] == m[k] && r[l] == m[l]);
                    } else {
                        assert(r[l] == e);
                        if front.len() > 0 {
                            assert(m[k].end <= m.last().end) by {
                                if k < m.len() - 1 {
                                    assert(m[k].end <= m.last().start);
                                    assert(m.last().start < m.last().end);
                                }
                            }
                            assert(m.last().end == front.last().end);
                            assert(front.last() == cands[cands.len() - 2]);
                            assert(cands[cands.len() - 2].end <= e.start);
                        }
                    }
                }
            }
        }
    }
}

/// Detection output on tokens that describe `text` is a well-formed entity
/// list: spans are non-empty, in bounds, strictly increasing by start and
/// non-overlapping; each entity's word is exactly the text of its span; and
/// every entity stems from a non-special token whose resolved label — never
/// the sentinel — is the entity's label.
pub proof fn lemma_detect_entities_wf(
    tokens: Seq<TokenPredictionView>,
    labels: Seq<Seq<char>>,
    text: Seq<char>,
)
    requires
        wf_tokens(tokens, text),
    ensures
        wf_entities(merged_entities(tokens, labels), text),
        entities_from_tokens(merged_entities(tokens, labels), tokens, labels),
        forall|k: int, l: int|
            0 <= k < l < merged_entities(tokens, labels).len() ==> (#[trigger] merged_entities(
                tokens,
                labels,
            )[k]).start < (#[trigger] merged_entities(tokens, labels)[l]).start,
{
    lemma_candidates_wf(tokens, labels, text);
    lemma_merge_pass_wf(candidate_entities(tokens, labels), tokens, labels, text);
    let ents = merged_entities(tokens, labels);
    assert forall|k: int, l: int| 0 <= k < l < ents.len() implies (#[trigger] ents[k]).start < (
    #[trigger] ents[l]).start by {
        assert(ents[k].start < ents[k].end);
        assert(ents[k].end <= ents[l].start);
    }
}

/// No two consecutive entities could still merge.
pub open spec fn fully_merged(ents: Seq<EntityView>) -> bool {
    forall|k: int|
        0 <= k && k + 1 < ents.len() ==> !mergeable(#[trigger] ents[k], ents[k + 1])
}

/// The merge pass leaves no two consecutive entities mergeable.
pub proof fn lemma_merge_pass_fully_merged(cands: Seq<EntityView>)
    ensures
        fully_merged(merge_pass(cands)),
    decreases cands.len(),
{
    if cands.len() > 0 {
        let front = cands.drop_last();
        lemma_merge_pass_fully_merged(front);
        let m = merge_pass(front);
        let e = cands.last();
        let r = merge_pass(cands);
        assert(r == merge_step(m, e));
        if m.len() > 0 && mergeable(m.last(), e) {
            let a = absorbed(m.last(), e);
            assert forall|k: int| 0 <= k && k + 1 < r.len() implies !mergeable(
                #[trigger] r[k],
                r[k + 1],
            ) by {
                if k + 1 < r.len() - 1 {
                    assert(r[k] == m[k] && r[k + 1] == m[k + 1]);
                } else {
                    assert(r[k] == m[k] && r[k + 1] == a);
                    assert(a.start == m.last().start && a.entity == m.last().entity);
                    assert(!mergeable(m[k], m.last()));
                }
            }
        } else {
            assert forall|k: int| 0 <= k && k + 1 < r.len() implies !mergeable(
                #[trigger] r[k],
                r[k + 1],
            ) by {
                if k + 1 < r.len() - 1 {
                    assert(r[k] == m[k] && r[k + 1] == m[k + 1]);
                } else {
                    assert(r[k] == m.last() && r[k + 1] == e);
                }
            }
        }
    }
}

/// The merge pass leaves a list with no consecutive mergeable pair as it is.
pub proof fn lemma_merge_pass_identity(ents: Seq<EntityView>)
    requires
        fully_merged(ents),
    ensures
        merge_pass(ents) == ents,
    decreases ents.len(),
{
    if ents.len() == 0 {
        assert(merge_pass(ents) =~= ents);
    } else {
        let front = ents.drop_last();
        assert(fully_merged(front)) by {
            assert forall|k: int| 0 <= k && k + 1 < front.len() implies !mergeable(
                #[trigger] front[k],
                front[k + 1],
            ) by {
                assert(front[k] == ents[k] && front[k + 1] == ents[k + 1]);
            }
        }
        lemma_merge_pass_identity(front);
        if front.len() > 0 {
            assert(front.last() == ents[ents.len() - 2]);
            assert(!mergeable(front.last(), ents.last()));
        }
        assert(front.push(ents.last()) =~= ents);
    }
}

/// Merging is idempotent: running the merge pass on its own output, taken
/// as fresh single-token candidates, yields the same entities.
pub proof fn lemma_merge_idempotent(cands: Seq<EntityView>)
    ensures
        merge_pass(merge_pass(cands)) == merge_pass(cands),
{
    lemma_merge_pass_fully_merged(cands);
    lemma_merge_pass_identity(merge_pass(cands));
}

/// Filtering and label resolution: drops special tokens and tokens whose
/// label resolves to the sentinel, and turns the rest into single-token
/// entities in their original order.
pub fn build_candidates(tokens: &Vec<TokenPrediction>, labels: &LabelTable) -> (cands: Vec<Entity>)
    requires
        valid_label_ids(tokens.deep_view(), labels@),
    ensures
        cands.deep_view() == candidate_entities(tokens.deep_view(), labels@),
{
    let sentinel = "O".to_owned();
    proof {
        reveal_strlit("O");
        assert(sentinel@ =~= sentinel_label());
    }
    let mut cands: Vec<Entity> = Vec::new();
    let mut i: usize = 0;
    while i < tokens.len()
        invariant
            i <= tokens.len(),
            sentinel@ == sentinel_label(),
            valid_label_ids(tokens.deep_view(), labels@),
            cands.deep_view() == candidate_entities(
                tokens.deep_view().subrange(0, i as int),
                labels@,
            ),
        decreases tokens.len() - i,
    {
        proof {
            assert(tokens.deep_view()[i as int] == tokens@[i as int]@);
        }
        let t = &tokens[i];
        if !t.is_special_token {
            let name = labels.name_of(t.label_id);
            if !name.eq(&sentinel) {
                let e = Entity {
                    word: t.token_text.clone(),
                    entity: name.clone(),
                    score: t.score,
                    start: t.offset_start,
                    end: t.offset_end,
                    index: i,
                };
                proof {
                    assert(e@ == entity_of(tokens.deep_view()[i as int], labels@, i as int));
                }
                cands.push(e);
            }
        }
        proof {
            let toks = tokens.deep_view();
            let prefix = toks.subrange(0, i as int);
            let next = toks.subrange(0, i + 1);
            assert(next.drop_last() =~= prefix);
            assert(next.last() == toks[i as int]);
            assert(cands.deep_view() =~~= candidate_entities(next, labels@));
        }
        i = i + 1;
    }
    proof {
        assert(tokens.deep_view().subrange(0, tokens.len() as int) =~= tokens.deep_view());
    }
    cands
}

/// The merge pass: scans the candidate list left to right and absorbs each
/// candidate that is character-adjacent to, and equally labeled with, the
/// entity under construction; every other candidate opens a new entity.
pub fn merge_entities(cands: &Vec<Entity>) -> (merged: Vec<Entity>)
    ensures
        merged.deep_view() == merge_pass(cands.deep_view()),
{
    let mut merged: Vec<Entity> = Vec::new();
    let mut i: usize = 0;
    while i < cands.len()
        invariant
            i <= cands.len(),
            merged.deep_view() == merge_pass(cands.deep_view().subrange(0, i as int)),
        decreases cands.len() - i,
    {
        let e = cands[i].clone();
        proof {
            assert(e@ == cands.deep_view()[i as int]);
        }
        let absorb = if merged.len() > 0 {
            let last = &merged[merged.len() - 1];
            e.start == last.end && e.entity.eq(&last.entity)
        } else {
            false
        };
        let ghost acc = merged.deep_view();
        if absorb {
            let mut last = merged.pop().unwrap();
            proof {
                assert(mergeable(acc.last(), e@));
                assert(last@ == acc.last());
            }
            let sum: u64 = last.score as u64 + e.score as u64;
            last.word.append(e.word.as_str());
            last.end = e.end;
            last.score = (sum / 2) as u32;
            proof {
                assert(last@ == absorbed(acc.last(), e@));
            }
            merged.push(last);
            proof {
                assert(merged.deep_view() =~~= merge_step(acc, e@));
            }
        } else {
            merged.push(e);
            proof {
                assert(merged.deep_view() =~~= merge_step(acc, e@));
            }
        }
        proof {
            let all = cands.deep_view();
            let prefix = all.subrange(0, i as int);
            let next = all.subrange(0, i + 1);
            assert(next.drop_last() =~= prefix);
            assert(next.last() == all[i as int]);
        }
        i = i + 1;
    }
    proof {
        assert(cands.deep_view().subrange(0, cands.len() as int) =~= cands.deep_view());
    }
    merged
}

/// Entity detection on a token sequence: filter out special and sentinel
/// tokens, then merge adjacent same-label spans.
pub fn detect_entities(tokens: &Vec<TokenPrediction>, labels: &LabelTable) -> (entities: Vec<
    Entity,
>)
    requires
        valid_label_ids(tokens.deep_view(), labels@),
    ensures
        entities.deep_view() == merged_entities(tokens.deep_view(), labels@),
{
    let cands = build_candidates(tokens, labels);
    merge_entities(&cands)
}

} // verus!
