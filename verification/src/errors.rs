//! Error taxonomy of the consolidation run. Every kind is fatal at the
//! point of detection: nothing is retried and no partial output is kept.
use vstd::prelude::*;

verus! {

/// Mathematical model of an error value.
pub enum ErrorModel {
    /// A listed input path cannot be opened or read.
    InputNotFound { path: Seq<char> },
    /// File content cannot be parsed as delimited data with the expected
    /// header: no header row at all, or duplicate column names.
    MalformedInput { path: Seq<char> },
    /// A requested column is absent from a loaded file's header.
    MissingColumn { path: Seq<char>, missing: Seq<Seq<char>>, available: Seq<Seq<char>> },
    /// A batch's rows cannot be appended to the accumulator because the
    /// column sets differ.
    MergeFailure { expected: Seq<Seq<char>>, found: Seq<Seq<char>> },
    /// The output destination cannot be created or written.
    OutputWriteFailure { path: Seq<char> },
}

/// An error of the consolidation run.
#[derive(Debug)]
pub enum MergeError {
    /// A listed input path cannot be opened or read.
    InputNotFound { path: String },
    /// File content cannot be parsed as delimited data with the expected
    /// header: no header row at all, or duplicate column names.
    MalformedInput { path: String },
    /// A requested column is absent from a loaded file's header.
    MissingColumn { path: String, missing: Vec<String>, available: Vec<String> },
    /// A batch's rows cannot be appended to the accumulator because the
    /// column sets differ.
    MergeFailure { expected: Vec<String>, found: Vec<String> },
    /// The output destination cannot be created or written.
    OutputWriteFailure { path: String },
}

impl View for MergeError {
    type V = ErrorModel;

    open spec fn view(&self) -> ErrorModel {
        match self {
            MergeError::InputNotFound { path } => ErrorModel::InputNotFound { path: path@ },
            MergeError::MalformedInput { path } => ErrorModel::MalformedInput { path: path@ },
            MergeError::MissingColumn { path, missing, available } => ErrorModel::MissingColumn {
                path: path@,
                missing: missing.deep_view(),
                available: available.deep_view(),
            },
            MergeError::MergeFailure { expected, found } => ErrorModel::MergeFailure {
                expected: expected.deep_view(),
                found: found.deep_view(),
            },
            MergeError::OutputWriteFailure { path } => ErrorModel::OutputWriteFailure {
                path: path@,
            },
        }
    }
}

} // verus!
