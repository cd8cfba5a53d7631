//! The engine's structured error and the categories a caller branches on.

use vstd::prelude::*;

verus! {

/// The class of failure an error belongs to.
///
/// A caller acts on the category rather than on the message: a configuration problem is
/// fixed by changing an argument, a graph problem by changing the input.
#[derive(Debug, Clone, Copy, PartialEq, Eq, Structural)]
pub enum ErrorCategory {
    /// An argument or option that is not usable.
    Configuration,
    /// Input that could not be read or does not have the required shape.
    Validation,
    /// A graph that violates an integrity rule.
    Graph,
    /// Evidence that cannot support the claim it was collected for.
    Provenance,
    /// A document that could not be written in the requested format.
    Export,
    /// A document from a specification family or version this engine does not interpret.
    SpecificationCompatibility,
}

/// A failure, with the category a caller branches on and the sentence a reader is shown.
#[derive(Debug, Clone)]
pub enum EngineError {
    /// A configuration problem.
    Configuration(String),
    /// Input that could not be read, with where in the document the problem lies.
    Validation {
        /// The location in the document.
        path: String,
        /// What is wrong there.
        detail: String,
    },
    /// A graph integrity failure.
    Graph(String),
    /// An evidence failure.
    Provenance(String),
    /// An export failure.
    Export(String),
}

impl EngineError {
    /// The category of this error.
    pub fn category(&self) -> (c: ErrorCategory)
        ensures
            c == self.spec_category(),
    {
        match self {
            EngineError::Configuration(_) => ErrorCategory::Configuration,
            EngineError::Validation { .. } => ErrorCategory::Validation,
            EngineError::Graph(_) => ErrorCategory::Graph,
            EngineError::Provenance(_) => ErrorCategory::Provenance,
            EngineError::Export(_) => ErrorCategory::Export,
        }
    }

    /// The category of an error, as the contracts speak of it.
    pub open spec fn spec_category(&self) -> ErrorCategory {
        match self {
            EngineError::Configuration(_) => ErrorCategory::Configuration,
            EngineError::Validation { .. } => ErrorCategory::Validation,
            EngineError::Graph(_) => ErrorCategory::Graph,
            EngineError::Provenance(_) => ErrorCategory::Provenance,
            EngineError::Export(_) => ErrorCategory::Export,
        }
    }

    /// The sentence the error carries.
    pub open spec fn spec_message(&self) -> Seq<char> {
        match self {
            EngineError::Configuration(m) => m@,
            EngineError::Validation { detail, .. } => detail@,
            EngineError::Graph(m) => m@,
            EngineError::Provenance(m) => m@,
            EngineError::Export(m) => m@,
        }
    }

    /// Where in a document a validation error lies; empty for every other error.
    pub open spec fn spec_path(&self) -> Seq<char> {
        match self {
            EngineError::Validation { path, .. } => path@,
            _ => Seq::empty(),
        }
    }

    /// The sentence the error carries, for a report or a terminal.
    pub fn message(&self) -> (m: String)
        ensures
            m@ == self.spec_message(),
    {
        match self {
            EngineError::Configuration(m) => m.clone(),
            EngineError::Validation { detail, .. } => detail.clone(),
            EngineError::Graph(m) => m.clone(),
            EngineError::Provenance(m) => m.clone(),
            EngineError::Export(m) => m.clone(),
        }
    }
}

} // verus!
