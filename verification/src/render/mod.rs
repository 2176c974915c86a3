//! Rendering a renderable tree to output.

mod escape;
mod html;
pub mod js;
mod renderer;

pub use escape::{
    escape_html, escape_html_char, escape_html_chars, escape_html_into, escape_html_spec,
    is_html_special, lemma_escape_html_append, lemma_escape_html_plain,
};
pub use html::{
    Html, VOID_ELEMENTS, Walk, attribute_value, attributes_text, is_void_element, leaf_weight,
    leaves_weight, lowercase, node_weight, nodes_weight, render, render_all, render_all_with,
    render_leaf, render_leaves, render_node, render_nodes, render_with, void_names, walk_pending,
    walk_text, walk_weight,
};
pub use renderer::{Children, TagRenderer};
