//! Problems found in a document, as data.
//!
//! A document with a broken tag still parses into a tree: an editor wants the
//! rest of the file, and the formatter has to reprint what it was given. The
//! `id` of a problem is the stable, Markdoc-compatible part; the message is
//! prose.

use vstd::prelude::*;

use crate::ast::Location;
use crate::text::{push_str, string_of};

verus! {

/// How serious a problem is.
#[derive(Clone, Copy, Debug, PartialEq, Eq, PartialOrd, Ord, Structural)]
#[non_exhaustive]
pub enum ErrorLevel {
    /// Diagnostic noise, off by default in every consumer.
    Debug,
    /// Worth saying, never worth stopping for.
    Info,
    /// The document works but the author probably did not mean this.
    Warning,
    /// The document is wrong in a way that changes its output.
    Error,
    /// The document's structure is wrong; what follows may be misread.
    Critical,
}

/// Markdoc's spelling of a level.
pub open spec fn level_name(level: ErrorLevel) -> Seq<char> {
    match level {
        ErrorLevel::Debug => "debug"@,
        ErrorLevel::Info => "info"@,
        ErrorLevel::Warning => "warning"@,
        ErrorLevel::Error => "error"@,
        ErrorLevel::Critical => "critical"@,
    }
}

impl ErrorLevel {
    /// Markdoc's spelling, which is what tooling reads.
    pub fn as_str(self) -> (s: &'static str)
        ensures
            s@ == level_name(self),
    {
        match self {
            ErrorLevel::Debug => "debug",
            ErrorLevel::Info => "info",
            ErrorLevel::Warning => "warning",
            ErrorLevel::Error => "error",
            ErrorLevel::Critical => "critical",
        }
    }

    /// The spelling, owned.
    pub fn to_string(self) -> (s: String)
        ensures
            s@ == level_name(self),
    {
        let mut out: Vec<char> = Vec::new();
        push_str(&mut out, self.as_str());
        string_of(&out)
    }
}

/// One problem, attached to the node it concerns.
#[derive(Clone, Debug, PartialEq, Eq)]
pub struct ValidationError<'a> {
    /// The stable Markdoc id, such as `missing-closing`.
    pub id: &'static str,
    /// How serious it is.
    pub level: ErrorLevel,
    /// A human-readable description.
    pub message: String,
    /// Where in the source it was found, when the producer knows.
    pub location: Option<Location<'a>>,
}

/// `"Node '" + name + "' is missing opening"`.
pub open spec fn missing_opening_message(name: Seq<char>) -> Seq<char> {
    "Node '"@ + name + "' is missing opening"@
}

/// `"Node '" + name + "' is missing closing"`.
pub open spec fn missing_closing_message(name: Seq<char>) -> Seq<char> {
    "Node '"@ + name + "' is missing closing"@
}

/// `"Attribute '" + name + "' already set"`.
pub open spec fn duplicate_attribute_message(name: Seq<char>) -> Seq<char> {
    "Attribute '"@ + name + "' already set"@
}

/// `"Can't apply inline annotations to '" + parent + "'"`.
pub open spec fn no_inline_annotations_message(parent: Seq<char>) -> Seq<char> {
    "Can't apply inline annotations to '"@ + parent + "'"@
}

/// `prefix + middle + suffix`, owned.
fn framed(prefix: &str, middle: &str, suffix: &str) -> (s: String)
    ensures
        s@ == prefix@ + middle@ + suffix@,
{
    let mut out: Vec<char> = Vec::new();
    push_str(&mut out, prefix);
    push_str(&mut out, middle);
    push_str(&mut out, suffix);
    string_of(&out)
}

impl<'a> ValidationError<'a> {
    /// A problem with an id, a level, and a message.
    pub fn new(id: &'static str, level: ErrorLevel, message: String) -> (e: ValidationError<'a>)
        ensures
            e.id == id,
            e.level == level,
            e.message == message,
            e.location is None,
    {
        ValidationError { id, level, message, location: None }
    }

    /// Attach a source location.
    pub fn at(self, location: Location<'a>) -> (e: ValidationError<'a>)
        ensures
            e.id == self.id,
            e.level == self.level,
            e.message == self.message,
            e.location == Some(location),
    {
        let mut e = self;
        e.location = Some(location);
        e
    }

    /// `parse-error`: the text between `{%` and `%}` is not a tag.
    pub fn parse_error(message: &str) -> (e: ValidationError<'a>)
        ensures
            e.id@ == "parse-error"@,
            e.level == ErrorLevel::Critical,
            e.message@ == message@,
            e.location is None,
    {
        let mut out: Vec<char> = Vec::new();
        push_str(&mut out, message);
        Self::new("parse-error", ErrorLevel::Critical, string_of(&out))
    }

    /// `missing-opening`: a closing tag with nothing to close.
    pub fn missing_opening(name: &str) -> (e: ValidationError<'a>)
        ensures
            e.id@ == "missing-opening"@,
            e.level == ErrorLevel::Critical,
            e.message@ == missing_opening_message(name@),
            e.location is None,
    {
        Self::new(
            "missing-opening",
            ErrorLevel::Critical,
            framed("Node '", name, "' is missing opening"),
        )
    }

    /// `missing-closing`: a tag still open at the end of the document.
    pub fn missing_closing(name: &str) -> (e: ValidationError<'a>)
        ensures
            e.id@ == "missing-closing"@,
            e.level == ErrorLevel::Critical,
            e.message@ == missing_closing_message(name@),
            e.location is None,
    {
        Self::new(
            "missing-closing",
            ErrorLevel::Critical,
            framed("Node '", name, "' is missing closing"),
        )
    }

    /// `duplicate-attribute`: an annotation set an attribute that was already
    /// set. A warning: the last value wins and the document still renders.
    pub fn duplicate_attribute(name: &str) -> (e: ValidationError<'a>)
        ensures
            e.id@ == "duplicate-attribute"@,
            e.level == ErrorLevel::Warning,
            e.message@ == duplicate_attribute_message(name@),
            e.location is None,
    {
        Self::new(
            "duplicate-attribute",
            ErrorLevel::Warning,
            framed("Attribute '", name, "' already set"),
        )
    }

    /// `no-inline-annotations`: an annotation with no inline content to
    /// belong to.
    pub fn no_inline_annotations(parent: &str) -> (e: ValidationError<'a>)
        ensures
            e.id@ == "no-inline-annotations"@,
            e.level == ErrorLevel::Error,
            e.message@ == no_inline_annotations_message(parent@),
            e.location is None,
    {
        Self::new(
            "no-inline-annotations",
            ErrorLevel::Error,
            framed("Can't apply inline annotations to '", parent, "'"),
        )
    }

    /// `href-format-invalid`: a URL contains a tag or a variable.
    pub fn href_format_invalid() -> (e: ValidationError<'a>)
        ensures
            e.id@ == "href-format-invalid"@,
            e.level == ErrorLevel::Error,
            e.message@
                == "The 'href' format cannot contain Markdoc tag or variable. URLs must be static strings."@,
            e.location is None,
    {
        let mut out: Vec<char> = Vec::new();
        push_str(
            &mut out,
            "The 'href' format cannot contain Markdoc tag or variable. URLs must be static strings.",
        );
        Self::new("href-format-invalid", ErrorLevel::Error, string_of(&out))
    }
}

} // verus!
