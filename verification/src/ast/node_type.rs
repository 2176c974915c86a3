//! The document tree.
//!
//! A node is one element of a parsed document -- a paragraph, a heading, a
//! tag, a run of text -- carrying its attributes, its children, the
//! annotations written on it, the problems found in it, and where it came
//! from. Attributes keep authored order.

use vstd::prelude::*;

use crate::ast::str_eq;

use crate::text::{push_str, string_of};

verus! {

/// What kind of node this is. The spellings are Markdoc's node type names,
/// which a schema is looked up by.
#[derive(Clone, Copy, Debug, Default, PartialEq, Eq, Hash, PartialOrd, Ord, Structural)]
#[non_exhaustive]
pub enum NodeType {
    /// `> quoted`.
    Blockquote,
    /// Inline code.
    Code,
    /// An HTML comment, when comments are enabled.
    Comment,
    /// The root of a parsed document.
    Document,
    /// `*emphasis*`.
    Em,
    /// A tag whose internals did not parse.
    Error,
    /// A fenced code block.
    Fence,
    /// A line break written as two trailing spaces or a backslash.
    Hardbreak,
    /// `# heading`.
    Heading,
    /// A thematic break.
    Hr,
    /// `![alt](src)`.
    Image,
    /// The inline content of a block.
    Inline,
    /// A list item.
    Item,
    /// `[text](href)`.
    Link,
    /// An ordered or unordered list.
    List,
    /// The default.
    #[default]
    Node,
    /// A paragraph.
    Paragraph,
    /// `~~strikethrough~~`.
    S,
    /// A newline inside a block.
    Softbreak,
    /// `**strong**`.
    Strong,
    /// A table.
    Table,
    /// A Markdoc tag; its name is in the node's `tag`.
    Tag,
    /// A table body.
    Tbody,
    /// A table body cell.
    Td,
    /// A run of literal text.
    Text,
    /// A table header cell.
    Th,
    /// A table header.
    Thead,
    /// A table row.
    Tr,
}

/// Markdoc's spelling of a node type.
pub open spec fn node_type_name(t: NodeType) -> Seq<char> {
    match t {
        NodeType::Blockquote => "blockquote"@,
        NodeType::Code => "code"@,
        NodeType::Comment => "comment"@,
        NodeType::Document => "document"@,
        NodeType::Em => "em"@,
        NodeType::Error => "error"@,
        NodeType::Fence => "fence"@,
        NodeType::Hardbreak => "hardbreak"@,
        NodeType::Heading => "heading"@,
        NodeType::Hr => "hr"@,
        NodeType::Image => "image"@,
        NodeType::Inline => "inline"@,
        NodeType::Item => "item"@,
        NodeType::Link => "link"@,
        NodeType::List => "list"@,
        NodeType::Node => "node"@,
        NodeType::Paragraph => "paragraph"@,
        NodeType::S => "s"@,
        NodeType::Softbreak => "softbreak"@,
        NodeType::Strong => "strong"@,
        NodeType::Table => "table"@,
        NodeType::Tag => "tag"@,
        NodeType::Tbody => "tbody"@,
        NodeType::Td => "td"@,
        NodeType::Text => "text"@,
        NodeType::Th => "th"@,
        NodeType::Thead => "thead"@,
        NodeType::Tr => "tr"@,
    }
}

/// Every node type, in the order they are listed.
pub open spec fn all_node_types() -> Seq<NodeType> {
    seq![
        NodeType::Blockquote,
        NodeType::Code,
        NodeType::Comment,
        NodeType::Document,
        NodeType::Em,
        NodeType::Error,
        NodeType::Fence,
        NodeType::Hardbreak,
        NodeType::Heading,
        NodeType::Hr,
        NodeType::Image,
        NodeType::Inline,
        NodeType::Item,
        NodeType::Link,
        NodeType::List,
        NodeType::Node,
        NodeType::Paragraph,
        NodeType::S,
        NodeType::Softbreak,
        NodeType::Strong,
        NodeType::Table,
        NodeType::Tag,
        NodeType::Tbody,
        NodeType::Td,
        NodeType::Text,
        NodeType::Th,
        NodeType::Thead,
        NodeType::Tr,
    ]
}

impl NodeType {
    /// Every node type, in the order Markdoc lists them.
    pub fn all() -> (v: Vec<NodeType>)
        ensures
            v@ == all_node_types(),
            forall|t: NodeType| v@.contains(t),
    {
        let mut v: Vec<NodeType> = Vec::new();
        v.push(NodeType::Blockquote);
        v.push(NodeType::Code);
        v.push(NodeType::Comment);
        v.push(NodeType::Document);
        v.push(NodeType::Em);
        v.push(NodeType::Error);
        v.push(NodeType::Fence);
        v.push(NodeType::Hardbreak);
        v.push(NodeType::Heading);
        v.push(NodeType::Hr);
        v.push(NodeType::Image);
        v.push(NodeType::Inline);
        v.push(NodeType::Item);
        v.push(NodeType::Link);
        v.push(NodeType::List);
        v.push(NodeType::Node);
        v.push(NodeType::Paragraph);
        v.push(NodeType::S);
        v.push(NodeType::Softbreak);
        v.push(NodeType::Strong);
        v.push(NodeType::Table);
        v.push(NodeType::Tag);
        v.push(NodeType::Tbody);
        v.push(NodeType::Td);
        v.push(NodeType::Text);
        v.push(NodeType::Th);
        v.push(NodeType::Thead);
        v.push(NodeType::Tr);
        assert(v@ =~= all_node_types());
        assert forall|t: NodeType| v@.contains(t) by {
            match t {
                NodeType::Blockquote => assert(v@[0] == t),
                NodeType::Code => assert(v@[1] == t),
                NodeType::Comment => assert(v@[2] == t),
                NodeType::Document => assert(v@[3] == t),
                NodeType::Em => assert(v@[4] == t),
                NodeType::Error => assert(v@[5] == t),
                NodeType::Fence => assert(v@[6] == t),
                NodeType::Hardbreak => assert(v@[7] == t),
                NodeType::Heading => assert(v@[8] == t),
                NodeType::Hr => assert(v@[9] == t),
                NodeType::Image => assert(v@[10] == t),
                NodeType::Inline => assert(v@[11] == t),
                NodeType::Item => assert(v@[12] == t),
                NodeType::Link => assert(v@[13] == t),
                NodeType::List => assert(v@[14] == t),
                NodeType::Node => assert(v@[15] == t),
                NodeType::Paragraph => assert(v@[16] == t),
                NodeType::S => assert(v@[17] == t),
                NodeType::Softbreak => assert(v@[18] == t),
                NodeType::Strong => assert(v@[19] == t),
                NodeType::Table => assert(v@[20] == t),
                NodeType::Tag => assert(v@[21] == t),
                NodeType::Tbody => assert(v@[22] == t),
                NodeType::Td => assert(v@[23] == t),
                NodeType::Text => assert(v@[24] == t),
                NodeType::Th => assert(v@[25] == t),
                NodeType::Thead => assert(v@[26] == t),
                NodeType::Tr => assert(v@[27] == t),
            }
        }
        v
    }

    /// Markdoc's spelling, which is the key a schema is registered under.
    pub fn as_str(self) -> (s: &'static str)
        ensures
            s@ == node_type_name(self),
    {
        match self {
            NodeType::Blockquote => "blockquote",
            NodeType::Code => "code",
            NodeType::Comment => "comment",
            NodeType::Document => "document",
            NodeType::Em => "em",
            NodeType::Error => "error",
            NodeType::Fence => "fence",
            NodeType::Hardbreak => "hardbreak",
            NodeType::Heading => "heading",
            NodeType::Hr => "hr",
            NodeType::Image => "image",
            NodeType::Inline => "inline",
            NodeType::Item => "item",
            NodeType::Link => "link",
            NodeType::List => "list",
            NodeType::Node => "node",
            NodeType::Paragraph => "paragraph",
            NodeType::S => "s",
            NodeType::Softbreak => "softbreak",
            NodeType::Strong => "strong",
            NodeType::Table => "table",
            NodeType::Tag => "tag",
            NodeType::Tbody => "tbody",
            NodeType::Td => "td",
            NodeType::Text => "text",
            NodeType::Th => "th",
            NodeType::Thead => "thead",
            NodeType::Tr => "tr",
        }
    }

    /// The spelling, owned.
    pub fn to_string(self) -> (s: String)
        ensures
            s@ == node_type_name(self),
    {
        let mut out: Vec<char> = Vec::new();
        push_str(&mut out, self.as_str());
        string_of(&out)
    }

    /// The node type Markdoc spells `name`, or [`None`].
    ///
    /// The inverse of [`NodeType::as_str`]; a misspelled key is `None` rather
    /// than a default, because a schema that silently never applies is the
    /// hardest kind of schema bug to see.
    pub fn from_name(name: &str) -> (r: Option<NodeType>)
        ensures
            r matches Some(t) ==> node_type_name(t) == name@,
            r is None ==> forall|t: NodeType| node_type_name(t) != name@,
    {
        if str_eq(name, "blockquote") {
            return Some(NodeType::Blockquote);
        }
        if str_eq(name, "code") {
            return Some(NodeType::Code);
        }
        if str_eq(name, "comment") {
            return Some(NodeType::Comment);
        }
        if str_eq(name, "document") {
            return Some(NodeType::Document);
        }
        if str_eq(name, "em") {
            return Some(NodeType::Em);
        }
        if str_eq(name, "error") {
            return Some(NodeType::Error);
        }
        if str_eq(name, "fence") {
            return Some(NodeType::Fence);
        }
        if str_eq(name, "hardbreak") {
            return Some(NodeType::Hardbreak);
        }
        if str_eq(name, "heading") {
            return Some(NodeType::Heading);
        }
        if str_eq(name, "hr") {
            return Some(NodeType::Hr);
        }
        if str_eq(name, "image") {
            return Some(NodeType::Image);
        }
        if str_eq(name, "inline") {
            return Some(NodeType::Inline);
        }
        if str_eq(name, "item") {
            return Some(NodeType::Item);
        }
        if str_eq(name, "link") {
            return Some(NodeType::Link);
        }
        if str_eq(name, "list") {
            return Some(NodeType::List);
        }
        if str_eq(name, "node") {
            return Some(NodeType::Node);
        }
        if str_eq(name, "paragraph") {
            return Some(NodeType::Paragraph);
        }
        if str_eq(name, "s") {
            return Some(NodeType::S);
        }
        if str_eq(name, "softbreak") {
            return Some(NodeType::Softbreak);
        }
        if str_eq(name, "strong") {
            return Some(NodeType::Strong);
        }
        if str_eq(name, "table") {
            return Some(NodeType::Table);
        }
        if str_eq(name, "tag") {
            return Some(NodeType::Tag);
        }
        if str_eq(name, "tbody") {
            return Some(NodeType::Tbody);
        }
        if str_eq(name, "td") {
            return Some(NodeType::Td);
        }
        if str_eq(name, "text") {
            return Some(NodeType::Text);
        }
        if str_eq(name, "th") {
            return Some(NodeType::Th);
        }
        if str_eq(name, "thead") {
            return Some(NodeType::Thead);
        }
        if str_eq(name, "tr") {
            return Some(NodeType::Tr);
        }
        proof {
            reveal_strlit("blockquote");
            reveal_strlit("code");
            reveal_strlit("comment");
            reveal_strlit("document");
            reveal_strlit("em");
            reveal_strlit("error");
            reveal_strlit("fence");
            reveal_strlit("hardbreak");
            reveal_strlit("heading");
            reveal_strlit("hr");
            reveal_strlit("image");
            reveal_strlit("inline");
            reveal_strlit("item");
            reveal_strlit("link");
            reveal_strlit("list");
            reveal_strlit("node");
            reveal_strlit("paragraph");
            reveal_strlit("s");
            reveal_strlit("softbreak");
            reveal_strlit("strong");
            reveal_strlit("table");
            reveal_strlit("tag");
            reveal_strlit("tbody");
            reveal_strlit("td");
            reveal_strlit("text");
            reveal_strlit("th");
            reveal_strlit("thead");
            reveal_strlit("tr");
        }
        assert forall|t: NodeType| node_type_name(t) != name@ by {
            match t {
                NodeType::Blockquote => {},
                NodeType::Code => {},
                NodeType::Comment => {},
                NodeType::Document => {},
                NodeType::Em => {},
                NodeType::Error => {},
                NodeType::Fence => {},
                NodeType::Hardbreak => {},
                NodeType::Heading => {},
                NodeType::Hr => {},
                NodeType::Image => {},
                NodeType::Inline => {},
                NodeType::Item => {},
                NodeType::Link => {},
                NodeType::List => {},
                NodeType::Node => {},
                NodeType::Paragraph => {},
                NodeType::S => {},
                NodeType::Softbreak => {},
                NodeType::Strong => {},
                NodeType::Table => {},
                NodeType::Tag => {},
                NodeType::Tbody => {},
                NodeType::Td => {},
                NodeType::Text => {},
                NodeType::Th => {},
                NodeType::Thead => {},
                NodeType::Tr => {},
            }
        }
        None
    }
}

} // verus!
