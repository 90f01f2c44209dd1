use vstd::prelude::*;

use crate::errors::PiiError;
use crate::labels::LabelTable;
use crate::merge::{
    detect_entities, merged_entities, valid_label_ids, Entity, TokenPrediction,
    TokenPredictionView,
};

verus! {

/// A text submitted for detection.
pub struct InputText {
    pub text: String,
}

/// The entities detected in one text.
pub struct PIIResponse {
    pub entities: Vec<Entity>,
}

/// Packages detection on one text's token predictions as a response.
pub fn detect(tokens: &Vec<TokenPrediction>, labels: &LabelTable) -> (response: PIIResponse)
    requires
        valid_label_ids(tokens.deep_view(), labels@),
    ensures
        response.entities.deep_view() == merged_entities(tokens.deep_view(), labels@),
{
    PIIResponse { entities: detect_entities(tokens, labels) }
}

/// The declaration of the tokenizer type of the `tokenizers` crate, so that
/// verified code can pass a tokenizer through to the encoding call.
#[verifier::external_type_specification]
#[verifier::external_body]
pub struct ExTokenizer(tokenizers::Tokenizer);

/// The per-token arrays of one tokenizer encoding: entry `i` of every array
/// describes token `i`. `offsets` holds each token's `[start, end)` span as
/// character offsets into the input text.
pub struct EncodedTokens {
    pub ids: Vec<u32>,
    pub tokens: Vec<String>,
    pub offsets: Vec<(usize, usize)>,
    pub special_tokens_mask: Vec<u32>,
    pub attention_mask: Vec<u32>,
}

impl EncodedTokens {
    /// The arrays are parallel: one entry of each per token.
    pub open spec fn parallel(&self) -> bool {
        &&& self.ids@.len() == self.tokens@.len()
        &&& self.ids@.len() == self.offsets@.len()
        &&& self.ids@.len() == self.special_tokens_mask@.len()
        &&& self.ids@.len() == self.attention_mask@.len()
    }
}

/// Relies on `tokenizers::Tokenizer::encode_char_offsets` (with special
/// tokens added) and the encoding's accessors `get_ids`, `get_tokens`,
/// `get_offsets`, `get_special_tokens_mask` and `get_attention_mask`: the
/// call tokenizes one text, recording each token's span in character
/// offsets, and the accessors expose the encoding's per-token arrays. What
/// the arrays hold depends on the tokenizer's learned vocabulary, so nothing
/// is claimed of their contents here; `check_parallel` checks the shape.
#[verifier::external_body]
fn encode_with(tokenizer: &tokenizers::Tokenizer, text: &str) -> (r: Result<
    EncodedTokens,
    PiiError,
>)
    ensures
        r is Err ==> r->Err_0 is ModelInference,
{
    match tokenizer.encode_char_offsets(text, true) {
        Ok(e) => Ok(
            EncodedTokens {
                ids: e.get_ids().to_vec(),
                tokens: e.get_tokens().to_vec(),
                offsets: e.get_offsets().to_vec(),
                special_tokens_mask: e.get_special_tokens_mask().to_vec(),
                attention_mask: e.get_attention_mask().to_vec(),
            },
        ),
        Err(err) => Err(PiiError::ModelInference { detail: format!("{}", err) }),
    }
}

/// Accepts an encoding exactly when its arrays are parallel, handing it back
/// unchanged; one whose arrays disagree in length is a `ModelInference`
/// error.
pub fn check_parallel(enc: EncodedTokens) -> (r: Result<EncodedTokens, PiiError>)
    ensures
        r is Ok <==> enc.parallel(),
        r is Ok ==> r->Ok_0 == enc,
        r is Err ==> r->Err_0 is ModelInference,
{
    let n = enc.ids.len();
    if enc.tokens.len() == n && enc.offsets.len() == n && enc.special_tokens_mask.len() == n
        && enc.attention_mask.len() == n {
        Ok(enc)
    } else {
        Err(
            PiiError::ModelInference {
                detail: "tokenizer returned arrays of unequal lengths".to_owned(),
            },
        )
    }
}

/// Tokenizes one text: the tokenizer's per-token arrays with character
/// offsets, checked by `check_parallel` to be parallel. A tokenizer
/// failure, or an encoding whose arrays disagree in length, is a
/// `ModelInference` error.
pub fn tokenize(tokenizer: &tokenizers::Tokenizer, text: &str) -> (r: Result<
    EncodedTokens,
    PiiError,
>)
    ensures
        match r {
            Ok(enc) => enc.parallel(),
            Err(e) => e is ModelInference,
        },
{
    match encode_with(tokenizer, text) {
        Err(e) => Err(e),
        Ok(enc) => check_parallel(enc),
    }
}

/// The token predictions assembled from parallel arrays: entry `i` pairs
/// token `i` of the encoding with the model's label choice and score for
/// position `i`. A token is special iff its mask entry is `1`.
pub open spec fn assembled_predictions(
    tokens: Seq<Seq<char>>,
    offsets: Seq<(usize, usize)>,
    special_tokens_mask: Seq<u32>,
    label_ids: Seq<u32>,
    scores: Seq<u32>,
) -> Seq<TokenPredictionView> {
    Seq::new(
        tokens.len(),
        |i: int|
            TokenPredictionView {
                token_text: tokens[i],
                offset_start: offsets[i].0 as int,
                offset_end: offsets[i].1 as int,
                label_id: label_ids[i] as int,
                score: scores[i],
                is_special_token: special_tokens_mask[i] == 1,
            },
    )
}

/// Packages one text's encoding and the model's per-position outputs into
/// token predictions. `label_ids` holds the arg-max label id and `scores`
/// its probability in millionths, one entry per token position; arrays whose
/// lengths disagree with the encoding are a `ModelInference` error — exactly
/// then.
pub fn build_predictions(enc: &EncodedTokens, label_ids: &Vec<u32>, scores: &Vec<u32>) -> (r:
    Result<Vec<TokenPrediction>, PiiError>)
    requires
        enc.parallel(),
    ensures
        match r {
            Ok(preds) => label_ids@.len() == enc.ids@.len() && scores@.len() == enc.ids@.len()
                && preds.deep_view() == assembled_predictions(
                enc.tokens.deep_view(),
                enc.offsets@,
                enc.special_tokens_mask@,
                label_ids@,
                scores@,
            ),
            Err(e) => (label_ids@.len() != enc.ids@.len() || scores@.len() != enc.ids@.len())
                && e is ModelInference,
        },
{
    let n = enc.tokens.len();
    if label_ids.len() != n || scores.len() != n {
        return Err(
            PiiError::ModelInference {
                detail: "model outputs disagree with the encoding length".to_owned(),
            },
        );
    }
    let ghost target = assembled_predictions(
        enc.tokens.deep_view(),
        enc.offsets@,
        enc.special_tokens_mask@,
        label_ids@,
        scores@,
    );
    let mut preds: Vec<TokenPrediction> = Vec::new();
    let mut i: usize = 0;
    while i < n
        invariant
            i <= n,
            n == enc.tokens@.len(),
            enc.parallel(),
            label_ids@.len() == n,
            scores@.len() == n,
            preds.len() == i,
            target == assembled_predictions(
                enc.tokens.deep_view(),
                enc.offsets@,
                enc.special_tokens_mask@,
                label_ids@,
                scores@,
            ),
            preds.deep_view() =~= target.subrange(0, i as int),
        decreases n - i,
    {
        let p = TokenPrediction {
            token_text: enc.tokens[i].clone(),
            offset_start: enc.offsets[i].0,
            offset_end: enc.offsets[i].1,
            label_id: label_ids[i] as usize,
            score: scores[i],
            is_special_token: enc.special_tokens_mask[i] == 1,
        };
        proof {
            assert(p@ == target[i as int]);
        }
        preds.push(p);
        proof {
            assert(preds.deep_view() =~= target.subrange(0, i + 1));
        }
        i = i + 1;
    }
    proof {
        assert(target.subrange(0, n as int) =~= target);
    }
    Ok(preds)
}

} // verus!
