use vstd::prelude::*;
use vstd::string::StringExecFns;

verus! {

/// What can go wrong in building or using a tokenizer.
#[derive(Debug, Clone, PartialEq, Eq)]
pub enum TiktokenError {
    /// The merge table, or the special tokens beside it, break a rule of the data model.
    MalformedMergeTable,
    /// A pattern did not compile.
    InvalidPattern,
    /// No encoding of that name is in the catalog.
    UnknownEncodingName,
    /// No model of that name is in the catalog.
    UnknownModelName { model: String },
    /// The text holds a special token that the caller did not allow.
    DisallowedSpecialTokenFound { literal: String },
    /// A single-token lookup found nothing.
    UnknownToken,
    /// The allowed or the disallowed special tokens were given as something that is neither
    /// a set of literals nor `"all"`.
    InvalidAllowedSpecialArgument,
    /// The text cannot be encoded: the pattern engine gave up or reported a match that is
    /// empty or not a range of the text, or a piece holds bytes without a rank.
    EncodeFailure,
}

impl TiktokenError {
    /// The sentence that names the error.
    pub open spec fn message_text(self) -> Seq<char> {
        match self {
            TiktokenError::MalformedMergeTable => "The merge table is malformed"@,
            TiktokenError::InvalidPattern => "Invalid pattern"@,
            TiktokenError::UnknownEncodingName => "Invalid encoding"@,
            TiktokenError::UnknownModelName { model } => "Invalid model: "@ + model@,
            TiktokenError::DisallowedSpecialTokenFound { literal } =>
                "The text contains a special token that is not allowed: "@ + literal@,
            TiktokenError::UnknownToken => "Token not found in the vocabulary"@,
            TiktokenError::InvalidAllowedSpecialArgument =>
                "Invalid value for allowed_special or disallowed_special"@,
            TiktokenError::EncodeFailure => "The text cannot be encoded"@,
        }
    }

    /// A sentence that names the error.
    pub fn message(&self) -> (text: String)
        ensures
            text@ == self.message_text(),
    {
        match self {
            TiktokenError::MalformedMergeTable => "The merge table is malformed".to_string(),
            TiktokenError::InvalidPattern => "Invalid pattern".to_string(),
            TiktokenError::UnknownEncodingName => "Invalid encoding".to_string(),
            TiktokenError::UnknownModelName { model } => {
                let mut text = "Invalid model: ".to_string();
                text.append(model.as_str());
                text
            },
            TiktokenError::DisallowedSpecialTokenFound { literal } => {
                let mut text =
                    "The text contains a special token that is not allowed: ".to_string();
                text.append(literal.as_str());
                text
            },
            TiktokenError::UnknownToken => "Token not found in the vocabulary".to_string(),
            TiktokenError::InvalidAllowedSpecialArgument =>
                "Invalid value for allowed_special or disallowed_special".to_string(),
            TiktokenError::EncodeFailure => "The text cannot be encoded".to_string(),
        }
    }
}

} // verus!
