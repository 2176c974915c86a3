# accent_proust

Markdoc -- CommonMark plus a tag syntax -- as a verified Rust library: the tag
grammar and its error messages, the segmentation of a document into tags and
Markdown, the syntax tree, the canonical formatter, the HTML and JavaScript
printers, and a JSON writer for trees, with their contracts proved by Verus.

What is not proved is named here. The tree a document parses to is stated
relative to what its `Tokenizer` reports: whatever events the CommonMark
engine gives, the contract of `parse_with` says how they and the tags between
them become the tree. What pulldown-cmark reports for a given text is its own
business, so the round trips that depend on it -- formatting a parsed
document is idempotent, and reparsing the formatted text gives the same tree
-- are checked by the tests rather than proved.

## Layout

- `src/` is the library. Every function carries a contract; the
  specifications are spec functions over sequences of characters and the
  library's own views of its types.
  - `grammar/` -- the tag grammar as a specification (`peg.rs`) and the
    cursor that parses by it, with Markdoc's syntax-error messages.
  - `parse/` -- segmentation, the document builder that turns a tokenizer's
    events into a tree, and annotations.
  - `ast/` -- nodes, values, locations, errors and numbers.
  - `format/` -- the formatter; `read_back.rs` proves that a value it writes
    inside a tag parses back to itself.
  - `functions.rs` -- the built-in functions `and`, `or`, `not`, `equals`,
    `default` and `debug`.
  - `render/`, `json.rs`, `cli.rs`, `schema/`, `renderable.rs`, `text.rs`.
- `tests/` runs the library on concrete inputs, with pulldown-cmark as the
  CommonMark engine where a whole document is parsed.
- `app/` is the command-line host: `fmt` and `parse`, over pulldown-cmark,
  with clap for arguments and similar for `--check` diffs.

## The seams

The library does no I/O. A CommonMark engine reaches it through the
`Tokenizer` trait, whose contract ties the events it returns to a
specification of its own (`events_spec`); `app/` and the tests implement it
over pulldown-cmark.
