//! The export failures, classified so that a caller can tell them apart.
//!
//! A format that cannot represent the content is not the same as content that is
//! malformed, and neither is the same as a format name that was never a format.

use vstd::prelude::*;

use crate::error::{EngineError, ErrorCategory};
use crate::text::{debug_str, debug_text};

verus! {

/// A way an export can fail.
#[derive(Debug, Clone, PartialEq, Eq)]
pub enum ExportFailure {
    /// The requested format is not one this crate implements.
    UnsupportedFormat {
        /// The name that was asked for.
        requested: String,
    },
    /// The format cannot represent the content that was asked for.
    Unrepresentable {
        /// The format that cannot carry it.
        format: String,
        /// What could not be carried.
        subject: String,
        /// Why the format cannot carry it.
        reason: String,
    },
    /// Serialisation failed.
    Serialisation {
        /// The format being written.
        format: String,
        /// What the serialiser reported.
        detail: String,
    },
    /// The graph itself is not exportable.
    InvalidGraph {
        /// What is wrong with the graph.
        detail: String,
    },
}

/// The sentence an unsupported format name is reported with.
pub open spec fn unsupported_format_sentence(requested: Seq<char>) -> Seq<char> {
    "unsupported export format "@ + debug_text(requested) + "; this engine exports JSON, YAML, GraphML and DOT"@
}

impl ExportFailure {
    /// The sentence a failure is reported as, as the contracts speak of it.
    pub open spec fn sentence(self) -> Seq<char> {
        match self {
            ExportFailure::UnsupportedFormat { requested } => unsupported_format_sentence(requested@),
            ExportFailure::Unrepresentable { format, subject, reason } => format@ + " cannot represent "@ + subject@ + ": "@ + reason@,
            ExportFailure::Serialisation { format, detail } => "the "@ + format@ + " export could not be written: "@ + detail@,
            ExportFailure::InvalidGraph { detail } => "the graph cannot be exported: "@ + detail@,
        }
    }

    /// The category of a failure, as the contracts speak of it.
    pub open spec fn spec_category(self) -> ErrorCategory {
        match self {
            ExportFailure::UnsupportedFormat { .. } => ErrorCategory::Configuration,
            ExportFailure::Unrepresentable { .. } => ErrorCategory::Export,
            ExportFailure::Serialisation { .. } => ErrorCategory::Export,
            ExportFailure::InvalidGraph { .. } => ErrorCategory::Graph,
        }
    }

    /// The error category this failure belongs to.
    pub fn category(&self) -> (category: ErrorCategory)
        ensures
            category == self.spec_category(),
    {
        match self {
            ExportFailure::UnsupportedFormat { .. } => ErrorCategory::Configuration,
            ExportFailure::Unrepresentable { .. } => ErrorCategory::Export,
            ExportFailure::Serialisation { .. } => ErrorCategory::Export,
            ExportFailure::InvalidGraph { .. } => ErrorCategory::Graph,
        }
    }

    /// The sentence this failure is reported as.
    pub fn to_sentence(&self) -> (sentence: String)
        ensures
            sentence@ == self.sentence(),
    {
        let mut out = String::new();
        match self {
            ExportFailure::UnsupportedFormat { requested } => {
                out.append("unsupported export format ");
                proof { assert(out@ =~= "unsupported export format "@); }
                out.append(debug_str(requested.as_str()).as_str());
                out.append("; this engine exports JSON, YAML, GraphML and DOT");
            },
            ExportFailure::Unrepresentable { format, subject, reason } => {
                out.append(format.as_str());
                proof { assert(out@ =~= format@); }
                out.append(" cannot represent ");
                out.append(subject.as_str());
                out.append(": ");
                out.append(reason.as_str());
            },
            ExportFailure::Serialisation { format, detail } => {
                out.append("the ");
                proof { assert(out@ =~= "the "@); }
                out.append(format.as_str());
                out.append(" export could not be written: ");
                out.append(detail.as_str());
            },
            ExportFailure::InvalidGraph { detail } => {
                out.append("the graph cannot be exported: ");
                proof { assert(out@ =~= "the graph cannot be exported: "@); }
                out.append(detail.as_str());
            },
        }
        out
    }

    /// Converts into the engine's error type.
    pub fn into_error(self) -> (error: EngineError)
        ensures
            error.spec_category() == self.spec_category(),
            error.spec_message() == self.sentence(),
    {
        let sentence = self.to_sentence();
        match self {
            ExportFailure::UnsupportedFormat { .. } => EngineError::Configuration(sentence),
            ExportFailure::Unrepresentable { .. } | ExportFailure::Serialisation { .. } => EngineError::Export(sentence),
            ExportFailure::InvalidGraph { .. } => EngineError::Graph(sentence),
        }
    }
}

/// Returns the first failure in a list, or nothing when the list is empty.
pub fn first_failure(failures: Vec<ExportFailure>) -> (first: Option<ExportFailure>)
    ensures
        failures@.len() == 0 ==> first is None,
        failures@.len() > 0 ==> first == Some(failures@[0]),
{
    if failures.len() == 0 {
        None
    } else {
        let mut failures = failures;
        Some(failures.remove(0))
    }
}

} // verus!
