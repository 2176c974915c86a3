//! The configuration vocabulary a host reads declarations in: which keys a
//! schema may carry, where a declaration went wrong, and how to say so.

mod error;
mod keys;
mod path;
mod shape;

pub use error::{Error, ErrorKind, debug_spelling, error_message, joined, kind_message, name_views, node_type_names};
pub use keys::{ATTRIBUTE_KEYS, SCHEMA_KEYS, SLOT_KEYS, TOP_LEVEL};
pub use path::Path;
pub use shape::{Shape, shape_phrase};
