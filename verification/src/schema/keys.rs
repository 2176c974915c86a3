//! The keys a configuration may carry at each level. Cited by every reader,
//! so a change here is a change to the format.

use vstd::prelude::*;

verus! {

/// The keys of the document itself.
pub const TOP_LEVEL: [&'static str; 3] = ["tags", "nodes", "variables"];

/// The keys of a tag or node schema.
pub const SCHEMA_KEYS: [&'static str; 7] = [
    "render",
    "children",
    "attributes",
    "slots",
    "selfClosing",
    "inline",
    "description",
];

/// The keys of an attribute declaration.
pub const ATTRIBUTE_KEYS: [&'static str; 7] = [
    "type",
    "default",
    "required",
    "matches",
    "render",
    "errorLevel",
    "description",
];

/// The keys of a slot declaration.
pub const SLOT_KEYS: [&'static str; 2] = ["render", "required"];

} // verus!
