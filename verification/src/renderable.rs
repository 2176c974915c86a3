//! The renderable tree: what the transform stage produces and a renderer
//! consumes. Tags with attributes and children, and the scalars between them.

use vstd::prelude::*;

use crate::ast::IndexMap;

verus! {

/// A leaf of the renderable tree, and the values an attribute holds.
#[derive(Debug, PartialEq)]
#[non_exhaustive]
pub enum Scalar {
    /// `null`.
    Null,
    /// `true` or `false`.
    Boolean(bool),
    /// A number, as the ECMAScript spelling of its value.
    Number(String),
    /// A string.
    String(String),
    /// An array.
    Array(Vec<Scalar>),
    /// A plain object.
    Object(IndexMap<Scalar>),
}

/// An element: a name, attributes in authored order, and children.
#[derive(Debug, PartialEq)]
pub struct Tag {
    /// The element name; empty for a wrapper that renders only its children.
    pub name: String,
    /// The attributes, in authored order. A rendered slot is stored here as
    /// its transformed nodes.
    pub attributes: IndexMap<RenderableTreeNodes>,
    /// The children.
    pub children: Vec<RenderableTreeNode>,
}

/// A node of the renderable tree.
#[derive(Debug, PartialEq)]
#[non_exhaustive]
pub enum RenderableTreeNode {
    /// A leaf.
    Scalar(Scalar),
    /// An element.
    Tag(Tag),
}

/// One node or several: what a transform produces, and an attribute holds.
#[derive(Debug, PartialEq)]
#[non_exhaustive]
pub enum RenderableTreeNodes {
    /// A single node.
    One(RenderableTreeNode),
    /// A list of nodes.
    Many(Vec<RenderableTreeNode>),
}

impl Tag {
    /// A tag with a name, attributes and children.
    pub fn new(
        name: String,
        attributes: IndexMap<RenderableTreeNodes>,
        children: Vec<RenderableTreeNode>,
    ) -> (t: Tag)
        ensures
            t.name == name,
            t.attributes == attributes,
            t.children == children,
    {
        Tag { name, attributes, children }
    }
}

} // verus!
