//! The failures an operator can report.

use vstd::prelude::*;
use vstd::string::StringExecFns;

verus! {

/// Why an operator could not produce a table.
///
/// Every failure ends the pipeline stage that raised it; nothing is retried.
#[derive(Debug, PartialEq, Eq)]
pub enum EngineError {
    /// A record, or an input of a join or a set operation, has the wrong shape.
    SchemaMismatch,
    /// A column name that the table's schema does not hold.
    UnknownColumn,
    /// An expression applied to a value kind it is not defined on.
    TypeMismatch,
    /// An aggregate that has no value on a group without rows.
    AggregateOnEmptyGroup,
    /// The row source failed; the text is the source's own report.
    UpstreamFetchFailure(String),
}

impl EngineError {
    /// A one-line description, for callers that print the failure.
    pub fn message(&self) -> (text: String)
        ensures
            text@ == match *self {
                EngineError::SchemaMismatch => "schema mismatch"@,
                EngineError::UnknownColumn => "unknown column"@,
                EngineError::TypeMismatch => "type mismatch"@,
                EngineError::AggregateOnEmptyGroup => "aggregate on empty group"@,
                EngineError::UpstreamFetchFailure(detail) => "upstream fetch failure: "@ + detail@,
            },
    {
        match self {
            EngineError::SchemaMismatch => String::from_str("schema mismatch"),
            EngineError::UnknownColumn => String::from_str("unknown column"),
            EngineError::TypeMismatch => String::from_str("type mismatch"),
            EngineError::AggregateOnEmptyGroup => String::from_str("aggregate on empty group"),
            EngineError::UpstreamFetchFailure(detail) => {
                let mut text = String::from_str("upstream fetch failure: ");
                text.append(detail.as_str());
                text
            },
        }
    }
}

} // verus!
