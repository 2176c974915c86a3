//! What a tag body parses to.

use vstd::prelude::*;

use crate::ast::{SpecValue, Value};

verus! {

/// Markdoc's `Top` production: the four things that can appear between `{%`
/// and `%}`.
#[derive(Debug, PartialEq)]
#[non_exhaustive]
pub enum TagItem {
    /// A bare value: `{% $foo %}` or `{% equals(1, 2) %}`.
    Variable(Value),
    /// Attributes with no tag name: `{% #id .class key="value" %}`.
    Annotation {
        /// The attributes, in authored order.
        attributes: Vec<Attribute>,
    },
    /// An opening or self-closing tag: `{% callout type="note" %}`.
    TagOpen {
        /// The tag name.
        name: String,
        /// The attributes, in authored order; a truthy primary value arrives
        /// first, named `primary`.
        attributes: Vec<Attribute>,
        /// Whether the tag closed itself with a trailing `/`.
        self_closing: bool,
    },
    /// A closing tag: `{% /callout %}`.
    TagClose {
        /// The tag name.
        name: String,
    },
}

/// One entry of a tag's attribute list.
#[derive(Debug, PartialEq)]
#[non_exhaustive]
pub enum Attribute {
    /// `key=value`, or the `#id` shortcut.
    Attribute {
        /// The attribute name.
        name: String,
        /// The attribute value.
        value: Value,
    },
    /// The `.class` shortcut.
    Class {
        /// The class name.
        name: String,
    },
}

/// An attribute, as plain data.
pub enum SpecAttribute {
    /// A named value.
    Attribute(Seq<char>, SpecValue),
    /// A class.
    Class(Seq<char>),
}

/// A tag body's meaning, as plain data.
pub enum SpecTagItem {
    /// A bare value.
    Variable(SpecValue),
    /// An annotation.
    Annotation(Seq<SpecAttribute>),
    /// An opening tag: name, attributes, whether it closes itself.
    TagOpen(Seq<char>, Seq<SpecAttribute>, bool),
    /// A closing tag.
    TagClose(Seq<char>),
}

impl Attribute {
    /// What this attribute means.
    pub open spec fn deep(&self) -> SpecAttribute {
        match self {
            Attribute::Attribute { name, value } => SpecAttribute::Attribute(name@, value.deep()),
            Attribute::Class { name } => SpecAttribute::Class(name@),
        }
    }
}

/// What a list of attributes means.
pub open spec fn attributes_view(items: Seq<Attribute>) -> Seq<SpecAttribute> {
    Seq::new(items.len(), |i: int| items[i].deep())
}

impl TagItem {
    /// What this item means.
    pub open spec fn deep(&self) -> SpecTagItem {
        match self {
            TagItem::Variable(value) => SpecTagItem::Variable(value.deep()),
            TagItem::Annotation { attributes } => SpecTagItem::Annotation(
                attributes_view(attributes@),
            ),
            TagItem::TagOpen { name, attributes, self_closing } => SpecTagItem::TagOpen(
                name@,
                attributes_view(attributes@),
                *self_closing,
            ),
            TagItem::TagClose { name } => SpecTagItem::TagClose(name@),
        }
    }
}

} // verus!
