//! The document tree: nodes, tags, variables, functions, and source locations.
//!
//! Two properties are fixed here and depended on everywhere above: spans
//! borrow their text from the source, and attribute order is authored order.

mod equal;
mod error;
mod location;
mod map;
mod node;
mod node_type;
mod number;
mod value;

pub use error::{
    ErrorLevel, ValidationError, duplicate_attribute_message, level_name,
    missing_closing_message, missing_opening_message, no_inline_annotations_message,
};
pub use location::{
    Lines, Location, Position, is_position_of, lemma_line_starts, line_starts,
    source_line_starts, str_get_spec,
};
pub use map::{IndexMap, distinct_keys, key_index, lemma_key_index};
pub(crate) use map::str_eq;
pub use number::{canonical_number, canonical_number_of, ecma_digits, leading, trailing, repeat, first_index, literal_digits};
pub use value::{clone_entries, clone_value, maps_equal, value_eq, values_equal, lemma_values_view, Function, PathSegment, SpecSegment, SpecValue, Value, Variable, entries_view, path_view, segment_view, spec_truthy, values_view};
pub use node_type::{NodeType, all_node_types, node_type_name};
pub use node::{
    Node, Slots, children_size, descendants, node_name, node_size, slots_size, stack_size, stack_walk,
    walk_children, walk_node, walk_slots,
};
