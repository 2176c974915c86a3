//! How to parse a document.

use vstd::prelude::*;

verus! {

/// How to parse a document.
#[derive(Clone, Debug)]
#[non_exhaustive]
pub struct ParseOptions<'s> {
    /// A name for the document, carried into every location.
    pub file: Option<&'s str>,
    /// Whether `{% slot "name" %}` is lifted into its parent's slot map.
    pub slots: bool,
    /// Whether nodes carry a location.
    pub location: bool,
    /// Whether an HTML comment becomes a `comment` node.
    pub allow_comments: bool,
    /// URL schemes to reject a tag inside, or `None` to skip the check.
    pub validated_protocols: Option<Vec<String>>,
    /// Tags allowed to wrap rows inside a `{% table %}`, or `None` for the
    /// default, `["if"]`.
    pub conditional_tags: Option<Vec<String>>,
}

impl<'s> ParseOptions<'s> {
    /// The library defaults: locations on, everything else off.
    pub fn new() -> (o: ParseOptions<'s>)
        ensures
            o.file is None,
            !o.slots,
            o.location,
            !o.allow_comments,
            o.validated_protocols is None,
            o.conditional_tags is None,
    {
        ParseOptions {
            file: None,
            slots: false,
            location: true,
            allow_comments: false,
            validated_protocols: None,
            conditional_tags: None,
        }
    }

    /// Name the document.
    pub fn file(self, file: &'s str) -> (o: ParseOptions<'s>)
        ensures
            o == (ParseOptions { file: Some(file), ..self }),
    {
        ParseOptions { file: Some(file), ..self }
    }

    /// Lift `{% slot %}` into its parent's slot map.
    pub fn slots(self, slots: bool) -> (o: ParseOptions<'s>)
        ensures
            o == (ParseOptions { slots, ..self }),
    {
        ParseOptions { slots, ..self }
    }

    /// Turn locations on or off.
    pub fn location(self, location: bool) -> (o: ParseOptions<'s>)
        ensures
            o == (ParseOptions { location, ..self }),
    {
        ParseOptions { location, ..self }
    }

    /// Turn HTML comments into `comment` nodes.
    pub fn allow_comments(self, allow: bool) -> (o: ParseOptions<'s>)
        ensures
            o == (ParseOptions { allow_comments: allow, ..self }),
    {
        ParseOptions { allow_comments: allow, ..self }
    }

    /// Reject tags inside URLs using these schemes.
    pub fn validated_protocols(self, protocols: Vec<String>) -> (o: ParseOptions<'s>)
        ensures
            o == (ParseOptions { validated_protocols: Some(protocols), ..self }),
    {
        ParseOptions { validated_protocols: Some(protocols), ..self }
    }

    /// Name the tags allowed to wrap rows inside a `{% table %}`.
    pub fn conditional_tags(self, tags: Vec<String>) -> (o: ParseOptions<'s>)
        ensures
            o == (ParseOptions { conditional_tags: Some(tags), ..self }),
    {
        ParseOptions { conditional_tags: Some(tags), ..self }
    }
}

impl<'s> Default for ParseOptions<'s> {
    /// Everything off and empty, locations included.
    fn default() -> (o: ParseOptions<'s>)
        ensures
            o.file is None,
            !o.slots,
            !o.location,
            !o.allow_comments,
            o.validated_protocols is None,
            o.conditional_tags is None,
    {
        ParseOptions {
            file: None,
            slots: false,
            location: false,
            allow_comments: false,
            validated_protocols: None,
            conditional_tags: None,
        }
    }
}

} // verus!
