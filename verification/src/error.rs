//! The conversion error type.
use vstd::prelude::*;

verus! {

/// Why a conversion failed.
#[derive(Debug)]
pub enum ConvertError {
    /// A resource limit was exceeded; `limit` names the limit.
    ResourceLimit { limit: &'static str, detail: String },
    /// The input is structurally invalid.
    Malformed(String),
}

/// The error is the resource-limit error named `name`.
pub open spec fn is_limit_error(e: ConvertError, name: Seq<char>) -> bool {
    e matches ConvertError::ResourceLimit { limit, .. } && limit@ == name
}

/// The error reports malformed input.
pub open spec fn is_malformed(e: ConvertError) -> bool {
    e is Malformed
}

/// An error as plain values: whether it reports a limit, the limit's name
/// (empty for malformed input), and the message.
pub open spec fn error_view(e: ConvertError) -> (bool, Seq<char>, Seq<char>) {
    match e {
        ConvertError::ResourceLimit { limit, detail } => (true, limit@, detail@),
        ConvertError::Malformed(m) => (false, Seq::empty(), m@),
    }
}

impl ConvertError {
    /// A malformed-input error with the given message.
    pub fn malformed(message: &str) -> (e: ConvertError)
        ensures
            e == ConvertError::Malformed(e->Malformed_0),
            e->Malformed_0@ == message@,
    {
        ConvertError::Malformed(message.to_owned())
    }
}

} // verus!
