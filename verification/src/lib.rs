//! Markdoc -- CommonMark plus a tag syntax -- parsed, formatted and rendered,
//! with the tag language, its scanner and its printers verified.

pub mod text;
pub mod ast;
pub mod render;
pub mod parse;
pub mod format;
pub mod grammar;
pub mod schema;
pub mod cli;
pub mod renderable;
pub mod json;
pub mod functions;
