//! Tagged errors surfaced by the core.
use vstd::prelude::*;

verus! {

/// The error kinds the core reports: a missing entity, malformed input,
/// an evicted project, or an internal failure.
#[derive(Debug)]
pub enum AppError {
    NotFound(String),
    BadRequest(String),
    Gone(String),
    Internal(String),
}

impl AppError {
    /// The carried message.
    pub fn message(&self) -> (r: &str)
        ensures
            r@ == self.spec_message(),
    {
        match self {
            AppError::NotFound(m) => m.as_str(),
            AppError::BadRequest(m) => m.as_str(),
            AppError::Gone(m) => m.as_str(),
            AppError::Internal(m) => m.as_str(),
        }
    }

    pub open spec fn spec_message(&self) -> Seq<char> {
        match self {
            AppError::NotFound(m) => m@,
            AppError::BadRequest(m) => m@,
            AppError::Gone(m) => m@,
            AppError::Internal(m) => m@,
        }
    }
}

} // verus!
