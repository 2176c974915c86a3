//! Why a configuration does not declare, and where.
//!
//! An error is a path and a kind; its message is a sentence about both. A
//! host may append a reason of its own -- why a hook cannot be honoured, say
//! -- which follows the vocabulary's sentence after ` -- `.

use vstd::prelude::*;

use crate::ast::{NodeType, all_node_types, node_type_name};
use crate::schema::{Path, Shape, shape_phrase};
use crate::text::{chars_of, push_chars, push_str, string_of};

verus! {

/// Why a configuration does not declare.
#[derive(Clone, Debug, PartialEq, Eq)]
#[non_exhaustive]
pub enum ErrorKind {
    /// A key the vocabulary does not have at this level.
    UnknownKey {
        /// The key as written.
        key: String,
        /// The keys this level does have.
        expected: &'static [&'static str],
    },
    /// A value of the wrong shape.
    Expected {
        /// What the vocabulary wanted, as a noun phrase.
        what: &'static str,
        /// What was there instead.
        got: Shape,
    },
    /// A value the reader's format has and Markdoc does not.
    NoCounterpart(String),
    /// A node schema under a name that is not a node type.
    UnknownNodeType(String),
    /// A schema declared under `nodes.tag`.
    TagAsNodeType,
    /// An attribute type that is not one of the five.
    UnknownAttributeType(String),
    /// An error level that is not one of the five.
    UnknownErrorLevel(String),
    /// `render: true`.
    UnrenderableTrue,
    /// `matches` that is not a list.
    MatchesNotAList,
}

/// A configuration that does not declare: where, and why.
#[derive(Clone, Debug, PartialEq, Eq)]
pub struct Error {
    /// Where in the document.
    pub path: Path,
    /// What is wrong there.
    pub kind: ErrorKind,
    /// A reason the host added.
    pub reason: Option<String>,
}

/// Rust's `Debug` spelling of a string: quoted, with escapes.
pub uninterp spec fn debug_spelling(s: Seq<char>) -> Seq<char>;

/// `format!("{s:?}")`.
#[verifier::external_body]
fn debug_quoted(s: &str) -> (r: String)
    ensures
        r@ == debug_spelling(s@),
{
    format!("{s:?}")
}

/// `items`, separated by `sep`.
pub open spec fn joined(items: Seq<Seq<char>>, sep: Seq<char>) -> Seq<char>
    decreases items.len(),
{
    if items.len() == 0 {
        Seq::empty()
    } else if items.len() == 1 {
        items[0]
    } else {
        joined(items.drop_last(), sep) + sep + items.last()
    }
}

/// The spellings of a list of names.
pub open spec fn name_views(names: Seq<&'static str>) -> Seq<Seq<char>> {
    names.map_values(|n: &'static str| n@)
}

/// Every node type's name, in the order the type lists them.
pub open spec fn node_type_names() -> Seq<Seq<char>> {
    all_node_types().map_values(|t: NodeType| node_type_name(t))
}

/// The sentence for a kind of error, after the path and `: `.
pub open spec fn kind_message(kind: ErrorKind) -> Seq<char> {
    match kind {
        ErrorKind::UnknownKey { expected, .. } => "unrecognised key. Expected one of "@ + joined(
            name_views(expected@),
            ", "@,
        ),
        ErrorKind::Expected { what, got } => "expected "@ + what@ + ", not "@ + shape_phrase(got),
        ErrorKind::NoCounterpart(what) => "a "@ + what@
            + " has no Markdoc counterpart; use a string, number, boolean, null, array or plain object"@,
        ErrorKind::UnknownNodeType(name) => "unknown node type "@ + debug_spelling(name@)
            + "; expected one of "@ + joined(node_type_names(), ", "@),
        ErrorKind::TagAsNodeType =>
            "a tag is looked up by its name, never as the node type \"tag\"; declare it under \"tags\""@,
        ErrorKind::UnknownAttributeType(name) => "unknown attribute type "@ + debug_spelling(name@)
            + "; expected String, Number, Boolean, Object, Array, or an array of those"@,
        ErrorKind::UnknownErrorLevel(name) => "unknown error level "@ + debug_spelling(name@)
            + "; expected one of debug, info, warning, error, critical"@,
        ErrorKind::UnrenderableTrue => "expected an element name or false, not true"@,
        ErrorKind::MatchesNotAList =>
            "expected an array of acceptable values. A regular expression is not supported: the engine carries no regular expression engine on purpose"@,
    }
}

/// The whole message: path, sentence, and the host's reason if it gave one.
pub open spec fn error_message(e: Error) -> Seq<char> {
    e.path@ + ": "@ + kind_message(e.kind) + match e.reason {
        Some(r) => " -- "@ + r@,
        None => Seq::empty(),
    }
}

/// Append `items`, separated by `sep`.
fn push_joined(out: &mut Vec<char>, items: &[&'static str], sep: &str)
    ensures
        final(out)@ == old(out)@ + joined(name_views(items@), sep@),
{
    let ghost start = out@;
    let mut i: usize = 0;
    while i < items.len()
        invariant
            i <= items@.len(),
            out@ == start + joined(name_views(items@.take(i as int)), sep@),
        decreases items.len() - i,
    {
        if i > 0 {
            push_str(out, sep);
        }
        push_str(out, items[i]);
        proof {
            let next = name_views(items@.take(i + 1));
            assert(next.drop_last() =~= name_views(items@.take(i as int)));
            if i == 0 {
                assert(next =~= seq![items@[0]@]);
            }
        }
        i = i + 1;
    }
    assert(items@.take(i as int) =~= items@);
}

/// Append every node type's name, separated by `, `.
fn push_node_type_names(out: &mut Vec<char>)
    ensures
        final(out)@ == old(out)@ + joined(node_type_names(), ", "@),
{
    let all = NodeType::all();
    let ghost start = out@;
    let mut i: usize = 0;
    while i < all.len()
        invariant
            i <= all@.len(),
            all@ == all_node_types(),
            out@ == start + joined(all@.take(i as int).map_values(|t: NodeType| node_type_name(t)), ", "@),
        decreases all.len() - i,
    {
        if i > 0 {
            push_str(out, ", ");
        }
        push_str(out, all[i].as_str());
        proof {
            let next = all@.take(i + 1).map_values(|t: NodeType| node_type_name(t));
            assert(next.drop_last() =~= all@.take(i as int).map_values(|t: NodeType| node_type_name(t)));
            if i == 0 {
                assert(next =~= seq![node_type_name(all@[0])]);
            }
        }
        i = i + 1;
    }
    assert(all@.take(i as int) =~= all@);
}

impl Error {
    /// An error at `path`.
    pub fn new(path: Path, kind: ErrorKind) -> (e: Error)
        ensures
            e.path == path,
            e.kind == kind,
            e.reason is None,
    {
        Error { path, kind, reason: None }
    }

    /// The same error, with the host's reason appended to its message.
    pub fn explained(self, reason: &str) -> (e: Error)
        ensures
            e.path == self.path,
            e.kind == self.kind,
            e.reason matches Some(r) && r@ == reason@,
    {
        Error { path: self.path, kind: self.kind, reason: Some(string_of(&chars_of(reason))) }
    }

    /// The message: `config.tags.x: expected an object, not a string`.
    pub fn to_string(&self) -> (s: String)
        ensures
            s@ == error_message(*self),
    {
        let mut out = chars_of(self.path.to_string().as_str());
        push_str(&mut out, ": ");
        match &self.kind {
            ErrorKind::UnknownKey { expected, .. } => {
                push_str(&mut out, "unrecognised key. Expected one of ");
                push_joined(&mut out, expected, ", ");
            },
            ErrorKind::Expected { what, got } => {
                push_str(&mut out, "expected ");
                push_str(&mut out, what);
                push_str(&mut out, ", not ");
                push_str(&mut out, got.describe().as_str());
            },
            ErrorKind::NoCounterpart(what) => {
                push_str(&mut out, "a ");
                push_str(&mut out, what.as_str());
                push_str(
                    &mut out,
                    " has no Markdoc counterpart; use a string, number, boolean, null, array or plain object",
                );
            },
            ErrorKind::UnknownNodeType(name) => {
                push_str(&mut out, "unknown node type ");
                push_str(&mut out, debug_quoted(name.as_str()).as_str());
                push_str(&mut out, "; expected one of ");
                push_node_type_names(&mut out);
            },
            ErrorKind::TagAsNodeType => {
                push_str(
                    &mut out,
                    "a tag is looked up by its name, never as the node type \"tag\"; declare it under \"tags\"",
                );
            },
            ErrorKind::UnknownAttributeType(name) => {
                push_str(&mut out, "unknown attribute type ");
                push_str(&mut out, debug_quoted(name.as_str()).as_str());
                push_str(
                    &mut out,
                    "; expected String, Number, Boolean, Object, Array, or an array of those",
                );
            },
            ErrorKind::UnknownErrorLevel(name) => {
                push_str(&mut out, "unknown error level ");
                push_str(&mut out, debug_quoted(name.as_str()).as_str());
                push_str(&mut out, "; expected one of debug, info, warning, error, critical");
            },
            ErrorKind::UnrenderableTrue => {
                push_str(&mut out, "expected an element name or false, not true");
            },
            ErrorKind::MatchesNotAList => {
                push_str(
                    &mut out,
                    "expected an array of acceptable values. A regular expression is not supported: the engine carries no regular expression engine on purpose",
                );
            },
        }
        match &self.reason {
            Some(r) => {
                push_str(&mut out, " -- ");
                push_str(&mut out, r.as_str());
            },
            None => {},
        }
        assert(out@ =~= error_message(*self));
        string_of(&out)
    }
}

} // verus!
