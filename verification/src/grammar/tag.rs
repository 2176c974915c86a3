//! The productions above `Value`: `Top`, `Annotation`, `TagOpen`, `TagClose`
//! and the attribute list.
//!
//! The alternation order is the grammar's: `Annotation` is tried before
//! `TagOpen`, so `{% test=1 %}` is an annotation and never a tag named
//! `test`.

use vstd::prelude::*;

use crate::ast::{SpecValue, Value};
use crate::grammar::cursor::{Cursor, lemma_matches_one};
use crate::grammar::peg;
use crate::grammar::{Attribute, SpecAttribute, SpecTagItem, TagItem, attributes_view};

verus! {

/// An attribute production returned what `spec` says is there, and moved
/// past it.
pub open spec fn gives_attribute(
    spec: Option<(SpecAttribute, int)>,
    r: Option<Attribute>,
    before: int,
    after: int,
) -> bool {
    match spec {
        Some((a, e)) => r matches Some(x) && x.deep() == a && after == e && before < e,
        None => r is None && after == before,
    }
}

/// A tag-level production returned what `spec` says is there, and moved
/// past it.
pub open spec fn gives_item(spec: Option<(SpecTagItem, int)>, r: Option<TagItem>, before: int, after: int) -> bool {
    match spec {
        Some((item, e)) => r matches Some(x) && x.deep() == item && after == e,
        None => r is None && after == before,
    }
}

/// `c` followed by an identifier: the identifier and where it ends.
pub open spec fn shortcut(s: Seq<char>, p: int, c: char) -> Option<(Seq<char>, int)> {
    if peg::char_at(s, p, c) {
        peg::identifier(s, p + 1)
    } else {
        None
    }
}

impl Cursor {
    /// `TagShortcutId 'id' = '#' Identifier`.
    fn tag_shortcut_id(&mut self) -> (r: Option<Attribute>)
        requires
            old(self).wf(),
        ensures
            final(self).same_input(*old(self)),
            match shortcut(old(self).s(), old(self).at(), '#') {
                Some((name, e)) => r matches Some(a) && a.deep() == SpecAttribute::Attribute(
                    "id"@,
                    SpecValue::String(name),
                ) && final(self).pos == e,
                None => r is None && final(self).pos == old(self).pos,
            },
    {
        let start = self.pos;
        proof {
            reveal_strlit("#");
            assert("#"@ =~= seq!['#']);
            lemma_matches_one(self.s(), self.at(), '#');
        }
        self.enter_named("id");
        let name = if self.literal("#") {
            self.identifier()
        } else {
            None
        };
        self.leave_named();
        match name {
            Some(n) => Some(Attribute::Attribute { name: "id".to_owned(), value: Value::String(n) }),
            None => {
                self.pos = start;
                None
            },
        }
    }

    /// `TagShortcutClass 'class' = '.' Identifier`.
    fn tag_shortcut_class(&mut self) -> (r: Option<Attribute>)
        requires
            old(self).wf(),
        ensures
            final(self).same_input(*old(self)),
            match shortcut(old(self).s(), old(self).at(), '.') {
                Some((name, e)) => r matches Some(a) && a.deep() == SpecAttribute::Class(name)
                    && final(self).pos == e,
                None => r is None && final(self).pos == old(self).pos,
            },
    {
        let start = self.pos;
        proof {
            reveal_strlit(".");
            assert("."@ =~= seq!['.']);
            lemma_matches_one(self.s(), self.at(), '.');
        }
        self.enter_named("class");
        let name = if self.literal(".") {
            self.identifier()
        } else {
            None
        };
        self.leave_named();
        match name {
            Some(n) => Some(Attribute::Class { name: n }),
            None => {
                self.pos = start;
                None
            },
        }
    }

    /// `TagAttribute = Identifier '=' Value`, with no whitespace around `=`.
    fn tag_attribute(&mut self) -> (r: Option<Attribute>)
        requires
            old(self).wf(),
            old(self).depth == 0,
        ensures
            final(self).same_input(*old(self)),
            gives_attribute(
                match peg::identifier(old(self).s(), old(self).at()) {
                    Some((name, q)) => if peg::char_at(old(self).s(), q, '=') {
                        match peg::value(old(self).s(), q + 1, 0) {
                            Some((v, e)) => Some((SpecAttribute::Attribute(name, v), e)),
                            None => None,
                        }
                    } else {
                        None
                    },
                    None => None,
                },
                r,
                old(self).at(),
                final(self).at(),
            ),
    {
        let ghost s = self.s();
        let start = self.pos;
        let name = match self.identifier() {
            Some(n) => n,
            None => return None,
        };
        proof {
            reveal_strlit("=");
            assert("="@ =~= seq!['=']);
            lemma_matches_one(s, self.at(), '=');
        }
        if !self.literal("=") {
            self.pos = start;
            return None;
        }
        match self.value() {
            Some(value) => Some(Attribute::Attribute { name, value }),
            None => {
                self.pos = start;
                None
            },
        }
    }

    /// `TagAttributesItem = TagShortcutId / TagShortcutClass / TagAttribute`.
    fn tag_attributes_item(&mut self) -> (r: Option<Attribute>)
        requires
            old(self).wf(),
            old(self).depth == 0,
        ensures
            final(self).same_input(*old(self)),
            gives_attribute(
                peg::tag_attributes_item(old(self).s(), old(self).at()),
                r,
                old(self).at(),
                final(self).at(),
            ),
    {
        proof {
            peg::lemma_run_ends(self.s(), self.at());
            if self.at() + 1 <= self.s().len() {
                peg::lemma_run_ends(self.s(), self.at() + 1);
            }
        }
        match self.tag_shortcut_id() {
            Some(a) => return Some(a),
            None => {},
        }
        match self.tag_shortcut_class() {
            Some(a) => return Some(a),
            None => {},
        }
        self.tag_attribute()
    }

    /// `TagAttributes = TagAttributesItem (_+ TagAttributesItem)*`.
    fn tag_attributes(&mut self) -> (r: Option<Vec<Attribute>>)
        requires
            old(self).wf(),
            old(self).depth == 0,
        ensures
            final(self).same_input(*old(self)),
            match peg::tag_attributes(old(self).s(), old(self).at()) {
                Some((items, e)) => r matches Some(v) && attributes_view(v@) == items
                    && final(self).pos == e && old(self).pos < e,
                None => r is None && final(self).pos == old(self).pos,
            },
    {
        let ghost s = self.s();
        let start = self.pos;
        let head = match self.tag_attributes_item() {
            Some(a) => a,
            None => return None,
        };
        let ghost e0 = self.at();
        let ghost hv = head.deep();
        let mut items: Vec<Attribute> = Vec::new();
        items.push(head);
        assert(attributes_view(items@) =~= seq![hv]);
        loop
            invariant
                self.same_input(*old(self)),
                s == self.s(),
                self.depth == 0,
                start < e0 <= self.pos,
                peg::attributes_tail(s, self.at(), attributes_view(items@)) == peg::attributes_tail(
                    s,
                    e0,
                    seq![hv],
                ),
            ensures
                self.same_input(*old(self)),
                start < e0 <= self.pos,
                peg::attributes_tail(s, e0, seq![hv]) == (attributes_view(items@), self.at()),
            decreases self.chars@.len() - self.pos,
        {
            let mark = self.pos;
            proof {
                peg::lemma_run_ends(s, mark as int);
            }
            if !self.whitespace_plus() {
                self.pos = mark;
                break;
            }
            match self.tag_attributes_item() {
                Some(item) => {
                    assert(attributes_view(items@.push(item)) =~= attributes_view(items@).push(item.deep()));
                    items.push(item);
                },
                None => {
                    self.pos = mark;
                    break;
                },
            }
        }
        Some(items)
    }

    /// `TagName 'tag name' = Identifier`.
    fn tag_name(&mut self) -> (r: Option<String>)
        requires
            old(self).wf(),
        ensures
            final(self).same_input(*old(self)),
            match peg::identifier(old(self).s(), old(self).at()) {
                Some((name, e)) => r matches Some(n) && n@ == name && final(self).pos == e,
                None => r is None && final(self).pos == old(self).pos,
            },
    {
        self.enter_named("tag name");
        let name = self.identifier();
        self.leave_named();
        name
    }

    /// `TopLevelValue = Variable / Function`.
    fn top_level_value(&mut self) -> (r: Option<TagItem>)
        requires
            old(self).wf(),
            old(self).depth == 0,
        ensures
            final(self).same_input(*old(self)),
            gives_item(peg::top_level_value(old(self).s(), old(self).at()), r, old(self).at(), final(self).at()),
    {
        match self.variable() {
            Some(v) => return Some(TagItem::Variable(v)),
            None => {},
        }
        match self.function() {
            Some(v) => Some(TagItem::Variable(v)),
            None => None,
        }
    }

    /// `Annotation = TagAttributes _*`.
    fn annotation(&mut self) -> (r: Option<TagItem>)
        requires
            old(self).wf(),
            old(self).depth == 0,
        ensures
            final(self).same_input(*old(self)),
            gives_item(peg::annotation(old(self).s(), old(self).at()), r, old(self).at(), final(self).at()),
    {
        match self.tag_attributes() {
            Some(attributes) => {
                self.whitespace_star();
                Some(TagItem::Annotation { attributes })
            },
            None => None,
        }
    }

    /// `TagOpen = TagName _* primary? TagAttributes? _* '/'?`. A falsy
    /// primary value is parsed and dropped.
    fn tag_open(&mut self) -> (r: Option<TagItem>)
        requires
            old(self).wf(),
            old(self).depth == 0,
        ensures
            final(self).same_input(*old(self)),
            gives_item(peg::tag_open(old(self).s(), old(self).at()), r, old(self).at(), final(self).at()),
    {
        let ghost s = self.s();
        let name = match self.tag_name() {
            Some(n) => n,
            None => return None,
        };
        self.whitespace_star();
        let primary = match self.value() {
            Some(v) => {
                self.whitespace();
                Some(v)
            },
            None => None,
        };
        let ghost q2 = self.at();
        let mut items = match self.tag_attributes() {
            Some(items) => items,
            None => {
                let empty: Vec<Attribute> = Vec::new();
                assert(attributes_view(empty@) =~= Seq::empty());
                empty
            },
        };
        let ghost items_view = attributes_view(items@);
        assert((items_view, self.at()) == match peg::tag_attributes(s, q2) {
            Some((items, e)) => (items, e),
            None => (Seq::empty(), q2),
        });
        self.whitespace_star();
        proof {
            reveal_strlit("/");
            assert("/"@ =~= seq!['/']);
            lemma_matches_one(s, self.at(), '/');
        }
        let self_closing = self.literal("/");
        match primary {
            Some(v) => {
                if v.is_truthy() {
                    let ghost vd = v.deep();
                    items.insert(0, Attribute::Attribute { name: "primary".to_owned(), value: v });
                    assert(attributes_view(items@) =~= seq![
                        SpecAttribute::Attribute("primary"@, vd),
                    ] + items_view);
                }
            },
            None => {},
        }
        Some(TagItem::TagOpen { name, attributes: items, self_closing })
    }

    /// `TagClose = '/' TagName`.
    fn tag_close(&mut self) -> (r: Option<TagItem>)
        requires
            old(self).wf(),
        ensures
            final(self).same_input(*old(self)),
            gives_item(peg::tag_close(old(self).s(), old(self).at()), r, old(self).at(), final(self).at()),
    {
        let start = self.pos;
        proof {
            reveal_strlit("/");
            assert("/"@ =~= seq!['/']);
            lemma_matches_one(self.s(), self.at(), '/');
        }
        if !self.literal("/") {
            return None;
        }
        match self.tag_name() {
            Some(name) => Some(TagItem::TagClose { name }),
            None => {
                self.pos = start;
                None
            },
        }
    }

    /// `Top = TopLevelValue / Annotation / TagOpen / TagClose`: the first
    /// alternative that matches wins.
    pub(crate) fn top(&mut self) -> (r: Option<TagItem>)
        requires
            old(self).wf(),
            old(self).depth == 0,
            old(self).pos == 0,
        ensures
            final(self).same_input(*old(self)),
            gives_item(peg::top(old(self).s()), r, 0, final(self).at()),
    {
        match self.top_level_value() {
            Some(item) => return Some(item),
            None => {},
        }
        match self.annotation() {
            Some(item) => return Some(item),
            None => {},
        }
        match self.tag_open() {
            Some(item) => return Some(item),
            None => {},
        }
        self.tag_close()
    }
}

} // verus!
