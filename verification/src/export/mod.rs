//! Machine-readable export: the format vocabulary and the escaping each format needs.
//!
//! JSON and YAML carry a graph document with no loss; GraphML and DOT carry what a graph
//! tool or a reader needs, and everything that is a claim travels in them as a string.

pub mod dot;
pub mod errors;
pub mod graphml;

use vstd::prelude::*;

use crate::error::{EngineError, ErrorCategory};
use crate::text::{ascii_lowercase_of, normalise_name, str_equals, trimmed};

pub use errors::{ExportFailure, first_failure};

verus! {

/// A format a graph can be exported in.
#[derive(Debug, Clone, Copy, PartialEq, Eq, Structural)]
pub enum Format {
    /// The graph document the specification defines, as canonical JSON.
    Json,
    /// The same document, as YAML.
    Yaml,
    /// The graph, as GraphML, for graph tools.
    GraphML,
    /// The graph, as Graphviz DOT.
    Dot,
}

/// The format a normalised name selects, if any.
pub open spec fn format_named(name: Seq<char>) -> Option<Format> {
    if name == "json"@ {
        Some(Format::Json)
    } else if name == "yaml"@ || name == "yml"@ {
        Some(Format::Yaml)
    } else if name == "graphml"@ || name == "xml"@ {
        Some(Format::GraphML)
    } else if name == "dot"@ || name == "graphviz"@ {
        Some(Format::Dot)
    } else {
        None
    }
}

impl Format {
    /// The stable name, as the contracts speak of it.
    pub open spec fn name(self) -> Seq<char> {
        match self {
            Format::Json => "json"@,
            Format::Yaml => "yaml"@,
            Format::GraphML => "graphml"@,
            Format::Dot => "dot"@,
        }
    }

    /// Whether the format carries a document with no loss, as the contracts speak of it.
    pub open spec fn spec_is_lossless(self) -> bool {
        self == Format::Json || self == Format::Yaml
    }

    /// The stable name, used on the command line and in output.
    pub fn as_str(self) -> (s: &'static str)
        ensures
            s@ == self.name(),
    {
        match self {
            Format::Json => "json",
            Format::Yaml => "yaml",
            Format::GraphML => "graphml",
            Format::Dot => "dot",
        }
    }

    /// Every format, in a stable order.
    pub fn all() -> (formats: Vec<Format>)
        ensures
            formats@ == seq![Format::Json, Format::Yaml, Format::GraphML, Format::Dot],
    {
        let mut formats = Vec::new();
        formats.push(Format::Json);
        formats.push(Format::Yaml);
        formats.push(Format::GraphML);
        formats.push(Format::Dot);
        formats
    }

    /// The customary file extension, without a dot.
    pub fn extension(self) -> (s: &'static str)
        ensures
            s@ == self.name(),
    {
        match self {
            Format::Json => "json",
            Format::Yaml => "yaml",
            Format::GraphML => "graphml",
            Format::Dot => "dot",
        }
    }

    /// Whether the format can carry a document with no loss.
    pub fn is_lossless(self) -> (lossless: bool)
        ensures
            lossless == self.spec_is_lossless(),
    {
        match self {
            Format::Json | Format::Yaml => true,
            _ => false,
        }
    }

    /// Parses a format name, ignoring surrounding white space and ASCII case.
    pub fn parse(name: &str) -> (result: Result<Format, EngineError>)
        ensures
            format_named(ascii_lowercase_of(trimmed(name@))) matches Some(f) ==> result == Ok::<Format, EngineError>(f),
            format_named(ascii_lowercase_of(trimmed(name@))) is None ==> (result matches Err(e)
                && e.spec_category() == ErrorCategory::Configuration
                && e.spec_message() == errors::unsupported_format_sentence(name@)),
    {
        proof {
            lemma_format_names();
        }
        let normalised = normalise_name(name);
        let n = normalised.as_str();
        if str_equals(n, "json") {
            Ok(Format::Json)
        } else if str_equals(n, "yaml") || str_equals(n, "yml") {
            Ok(Format::Yaml)
        } else if str_equals(n, "graphml") || str_equals(n, "xml") {
            Ok(Format::GraphML)
        } else if str_equals(n, "dot") || str_equals(n, "graphviz") {
            Ok(Format::Dot)
        } else {
            Err(ExportFailure::UnsupportedFormat { requested: String::from_str(name) }.into_error())
        }
    }

    /// Every name this format accepts, for help text.
    pub fn accepted_names(self) -> (names: Vec<&'static str>)
        ensures
            names@.len() == (if self == Format::Json { 1int } else { 2int }),
            forall|i: int| 0 <= i < names@.len() ==> format_named(#[trigger] names@[i]@) == Some(self),
            names@[0]@ == self.name(),
            self == Format::Yaml ==> names@[1]@ == "yml"@,
            self == Format::GraphML ==> names@[1]@ == "xml"@,
            self == Format::Dot ==> names@[1]@ == "graphviz"@,
    {
        proof {
            lemma_format_names();
        }
        let mut names = Vec::new();
        match self {
            Format::Json => {
                names.push("json");
            },
            Format::Yaml => {
                names.push("yaml");
                names.push("yml");
            },
            Format::GraphML => {
                names.push("graphml");
                names.push("xml");
            },
            Format::Dot => {
                names.push("dot");
                names.push("graphviz");
            },
        }
        names
    }
}

/// Each accepted name selects its format and no other.
proof fn lemma_format_names()
    ensures
        format_named("json"@) == Some(Format::Json),
        format_named("yaml"@) == Some(Format::Yaml),
        format_named("yml"@) == Some(Format::Yaml),
        format_named("graphml"@) == Some(Format::GraphML),
        format_named("xml"@) == Some(Format::GraphML),
        format_named("dot"@) == Some(Format::Dot),
        format_named("graphviz"@) == Some(Format::Dot),
{
    reveal_strlit("json");
    reveal_strlit("yaml");
    reveal_strlit("yml");
    reveal_strlit("graphml");
    reveal_strlit("xml");
    reveal_strlit("dot");
    reveal_strlit("graphviz");
    assert("json"@[0] == 'j');
    assert("yaml"@[0] == 'y');
    assert("yml"@[0] == 'y');
    assert("graphml"@[0] == 'g');
    assert("xml"@[0] == 'x');
    assert("dot"@[0] == 'd');
    assert("graphviz"@[0] == 'g');
    assert("graphml"@.len() == 7);
    assert("graphviz"@.len() == 8);
    assert("yaml"@.len() == 4);
    assert("yml"@.len() == 3);
}

/// Converts a failure into the engine's error type.
pub fn to_engine_error(failure: ExportFailure) -> (error: EngineError)
    ensures
        error.spec_category() == failure.spec_category(),
        error.spec_message() == failure.sentence(),
{
    failure.into_error()
}

} // verus!
