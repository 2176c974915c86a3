//! The shape of a declared value, as a configuration reader reports it.

use vstd::prelude::*;

use crate::text::{chars_of, push_str, string_of};

verus! {

/// What kind of value a reader found where the vocabulary wanted another.
#[derive(Clone, Copy, Debug, PartialEq, Eq)]
#[non_exhaustive]
pub enum Shape {
    /// `null`.
    Null,
    /// `true` or `false`.
    Boolean,
    /// A number.
    Number,
    /// A string.
    String,
    /// A list.
    List,
    /// An object.
    Object,
    /// Anything the reader's own format has and the vocabulary does not: a
    /// date, a tagged value, a function call.
    Other(&'static str),
}

/// How a shape reads in a sentence.
pub open spec fn shape_phrase(shape: Shape) -> Seq<char> {
    match shape {
        Shape::Null => "null"@,
        Shape::Boolean => "a boolean"@,
        Shape::Number => "a number"@,
        Shape::String => "a string"@,
        Shape::List => "a list"@,
        Shape::Object => "an object"@,
        Shape::Other(what) => "a "@ + what@,
    }
}

impl Shape {
    /// The shape as a noun phrase: `a string`, `an object`.
    pub fn describe(self) -> (s: String)
        ensures
            s@ == shape_phrase(self),
    {
        match self {
            Shape::Null => string_of(&chars_of("null")),
            Shape::Boolean => string_of(&chars_of("a boolean")),
            Shape::Number => string_of(&chars_of("a number")),
            Shape::String => string_of(&chars_of("a string")),
            Shape::List => string_of(&chars_of("a list")),
            Shape::Object => string_of(&chars_of("an object")),
            Shape::Other(what) => {
                let mut out = chars_of("a ");
                push_str(&mut out, what);
                string_of(&out)
            },
        }
    }
}

} // verus!
