//! Where in a configuration something was found: `config.tags.callout`.

use vstd::prelude::*;

use crate::text::{decimal, push_decimal, push_str, string_of};

verus! {

/// A dotted path into a configuration document, for error messages.
#[derive(Clone, Debug, PartialEq, Eq)]
pub struct Path(String);

impl View for Path {
    type V = Seq<char>;

    closed spec fn view(&self) -> Seq<char> {
        self.0@
    }
}

impl Path {
    /// The document itself, spelled `config`.
    pub fn root() -> (p: Path)
        ensures
            p@ == "config"@,
    {
        Path(string_of(&crate::text::chars_of("config")))
    }

    /// The value under `key`: `config.tags`.
    pub fn child(&self, key: &str) -> (p: Path)
        ensures
            p@ == self@ + "."@ + key@,
    {
        let mut out = crate::text::chars_of(self.0.as_str());
        push_str(&mut out, ".");
        push_str(&mut out, key);
        Path(string_of(&out))
    }

    /// The element at `index`: `config.tags.x.attributes.a.type[0]`.
    pub fn index(&self, index: usize) -> (p: Path)
        ensures
            p@ == self@ + "["@ + decimal(index as nat) + "]"@,
    {
        let mut out = crate::text::chars_of(self.0.as_str());
        push_str(&mut out, "[");
        push_decimal(&mut out, index as u64);
        push_str(&mut out, "]");
        Path(string_of(&out))
    }

    /// The path as written.
    pub fn to_string(&self) -> (s: String)
        ensures
            s@ == self@,
    {
        self.0.clone()
    }
}

} // verus!
