use vstd::prelude::*;

verus! {

/// Failures of the detection and redaction pipeline.
///
/// Every variant carries enough context for the caller to report the failure:
/// either the detail text of the underlying collaborator failure, or the
/// position at which an internal invariant was found broken.
#[derive(Debug, Clone, PartialEq, Eq)]
pub enum PiiError {
    /// Loading the model, tokenizer or label table failed at startup.
    ModelLoad { detail: String },
    /// The tokenizer or the model failed while serving a request.
    ModelInference { detail: String },
    /// The input document could not be parsed.
    DocumentParse { detail: String },
    /// Two entity spans overlap or are out of order: an internal invariant
    /// violation, never expected from a well-formed merge result.
    SpanConflict { entity_index: usize },
    /// Writing the sanitized document back failed.
    DocumentWrite { detail: String },
}

} // verus!
