//! The `Value` productions: literals, arrays, hashes, function calls, and
//! variable references.
//!
//! Each production states, in its contract, that it returns what the grammar
//! in `peg.rs` says is at the cursor and moves the cursor to where that match
//! ends; a production that fails leaves the cursor where it was.

use vstd::prelude::*;

use crate::ast::{
    Function, IndexMap, PathSegment, SpecSegment, SpecValue, Value, Variable, canonical_number_of,
    entries_view, key_index, lemma_key_index, path_view, segment_view, str_eq, values_view,
};
use crate::grammar::cursor::{Cursor, lemma_matches_one, matches_at};
use crate::grammar::peg;
use crate::grammar::peg::MAX_VALUE_DEPTH;
use crate::text::string_of;

verus! {

/// A value production returned what `spec` says is there, and moved past it.
pub open spec fn gives_value(spec: Option<(SpecValue, int)>, r: Option<Value>, before: int, after: int) -> bool {
    match spec {
        Some((v, e)) => r matches Some(x) && x.deep() == v && after == e && before < e,
        None => r is None && after == before,
    }
}

/// A text production returned what `spec` says is there, and moved past it.
pub open spec fn gives_text(spec: Option<(Seq<char>, int)>, r: Option<String>, before: int, after: int) -> bool {
    match spec {
        Some((t, e)) => r matches Some(x) && x@ == t && after == e && before < e,
        None => r is None && after == before,
    }
}

/// What a hash entry means; `None` for a discarded `$$mdtype` entry.
pub open spec fn item_view(item: Option<(String, Value)>) -> Option<(Seq<char>, SpecValue)> {
    match item {
        Some((k, v)) => Some((k@, v.deep())),
        None => None,
    }
}

/// What a function parameter means.
pub open spec fn param_view(param: (Option<String>, Value)) -> (Option<Seq<char>>, SpecValue) {
    (
        match param.0 {
            Some(k) => Some(k@),
            None => None,
        },
        param.1.deep(),
    )
}

/// What a function parameter means, from its parts.
pub open spec fn param_parts_view(name: Option<String>, value: Value) -> (Option<Seq<char>>, SpecValue) {
    (
        match name {
            Some(k) => Some(k@),
            None => None,
        },
        value.deep(),
    )
}

/// What an optional first parameter means.
pub open spec fn head_view_of(head: Option<(Option<String>, Value)>) -> Option<(Option<Seq<char>>, SpecValue)> {
    match head {
        Some(x) => Some(param_view(x)),
        None => None,
    }
}

/// The meaning of keyed values, entry by entry.
pub proof fn lemma_entries_view(e: Seq<(String, Value)>)
    ensures
        entries_view(e).len() == e.len(),
        forall|i: int| 0 <= i < e.len() ==> #[trigger] entries_view(e)[i] == (e[i].0@, e[i].1.deep()),
    decreases e.len(),
{
    if e.len() > 0 {
        lemma_entries_view(e.drop_last());
        assert forall|i: int| 0 <= i < e.len() implies #[trigger] entries_view(e)[i] == (
            e[i].0@,
            e[i].1.deep(),
        ) by {
            if i < e.len() - 1 {
                assert(e.drop_last()[i] == e[i]);
            }
        }
    }
}

/// Looking a key up in the meaning finds it where it is in the entries.
pub proof fn lemma_key_index_view(e: Seq<(String, Value)>, k: Seq<char>)
    ensures
        peg::spec_key_index(entries_view(e), k) == key_index(e, k),
    decreases e.len(),
{
    lemma_entries_view(e);
    if e.len() > 0 {
        lemma_key_index_view(e.drop_last(), k);
        assert(entries_view(e).drop_last() =~= entries_view(e.drop_last()));
        assert(entries_view(e).last() == (e.last().0@, e.last().1.deep()));
    }
}

/// What `IndexMap::insert` does to the entries is `spec_insert` on their
/// meaning.
pub proof fn lemma_insert_view(
    before: Seq<(String, Value)>,
    after: Seq<(String, Value)>,
    key: String,
    value: Value,
)
    requires
        key_index(before, key@) >= 0 ==> {
            let i = key_index(before, key@);
            &&& after.len() == before.len()
            &&& after[i].0@ == key@
            &&& after[i].1 == value
            &&& forall|j: int| 0 <= j < before.len() && j != i ==> #[trigger] after[j] == before[j]
        },
        key_index(before, key@) == -1 ==> after == before.push((key, value)),
    ensures
        entries_view(after) == peg::spec_insert(entries_view(before), key@, value.deep()),
{
    lemma_entries_view(before);
    lemma_entries_view(after);
    lemma_key_index_view(before, key@);
    lemma_key_index(before, key@);
    let i = key_index(before, key@);
    if i >= 0 {
        assert forall|j: int| 0 <= j < after.len() implies #[trigger] entries_view(after)[j]
            == peg::spec_insert(entries_view(before), key@, value.deep())[j] by {
            if j != i {
                assert(after[j] == before[j]);
            }
        }
    } else {
        assert forall|j: int| 0 <= j < after.len() implies #[trigger] entries_view(after)[j]
            == peg::spec_insert(entries_view(before), key@, value.deep())[j] by {
            if j < before.len() {
                assert(after[j] == before[j]);
            }
        }
    }
    assert(entries_view(after) =~= peg::spec_insert(entries_view(before), key@, value.deep()));
}

/// The meaning of a list grows by the meaning of what is pushed.
pub proof fn lemma_values_push(items: Seq<Value>, v: Value)
    ensures
        values_view(items.push(v)) == values_view(items).push(v.deep()),
{
    assert(items.push(v).drop_last() =~= items);
}

/// Keying one more parameter inserts it under its name or its index.
pub proof fn lemma_keyed_push(
    ps: Seq<(Option<Seq<char>>, SpecValue)>,
    x: (Option<Seq<char>>, SpecValue),
    i: int,
    acc: Seq<(Seq<char>, SpecValue)>,
)
    requires
        0 <= i <= ps.len(),
    ensures
        peg::keyed(ps.push(x), i, acc) == peg::spec_insert(
            peg::keyed(ps, i, acc),
            peg::parameter_key(x.0, ps.len() as int),
            x.1,
        ),
    decreases ps.len() - i,
{
    let next = peg::spec_insert(acc, peg::parameter_key(ps.push(x)[i].0, i), ps.push(x)[i].1);
    assert(peg::keyed(ps.push(x), i, acc) == peg::keyed(ps.push(x), i + 1, next));
    if i < ps.len() {
        assert(ps.push(x)[i] == ps[i]);
        lemma_keyed_push(ps, x, i + 1, next);
        assert(peg::keyed(ps, i, acc) == peg::keyed(ps, i + 1, next));
    } else {
        assert(ps.push(x)[i] == x);
        assert(peg::keyed(ps.push(x), i + 1, next) == next);
        assert(peg::keyed(ps, i, acc) == acc);
    }
}

impl Cursor {
    /// `ValueNull 'null' = 'null'`.
    fn value_null(&mut self) -> (r: Option<Value>)
        requires
            old(self).wf(),
        ensures
            final(self).same_input(*old(self)),
            gives_value(peg::value_null(old(self).s(), old(self).at()), r, old(self).at(), final(self).at()),
    {
        self.enter_named("null");
        let matched = self.literal("null");
        self.leave_named();
        proof {
            reveal_strlit("null");
            assert("null"@ =~= seq!['n', 'u', 'l', 'l']);
        }
        if matched {
            Some(Value::Null)
        } else {
            None
        }
    }

    /// `ValueBoolean 'boolean' = 'true' / 'false'`.
    fn value_boolean(&mut self) -> (r: Option<Value>)
        requires
            old(self).wf(),
        ensures
            final(self).same_input(*old(self)),
            gives_value(peg::value_boolean(old(self).s(), old(self).at()), r, old(self).at(), final(self).at()),
    {
        proof {
            reveal_strlit("true");
            assert("true"@ =~= seq!['t', 'r', 'u', 'e']);
            reveal_strlit("false");
            assert("false"@ =~= seq!['f', 'a', 'l', 's', 'e']);
        }
        self.enter_named("boolean");
        let value = if self.literal("true") {
            Some(Value::Boolean(true))
        } else if self.literal("false") {
            Some(Value::Boolean(false))
        } else {
            None
        };
        self.leave_named();
        value
    }

    /// `ValueStringChars`: one character of string content, unescaped.
    fn string_char(&mut self) -> (r: Option<char>)
        requires
            old(self).wf(),
        ensures
            final(self).same_input(*old(self)),
            r matches Some(c) ==> {
                &&& old(self).at() < final(self).at()
                &&& peg::string_chars(old(self).s(), old(self).at()) == (
                    seq![c] + peg::string_chars(old(self).s(), final(self).at()).0,
                    peg::string_chars(old(self).s(), final(self).at()).1,
                )
            },
            r is None ==> final(self).pos == old(self).pos && peg::string_chars(
                old(self).s(),
                old(self).at(),
            ) == (Seq::<char>::empty(), old(self).at()),
    {
        let p = self.pos;
        if p >= self.chars.len() {
            return None;
        }
        let c = self.chars[p];
        if c == '\\' {
            if p + 1 < self.chars.len() {
                let d = self.chars[p + 1];
                let u = if d == '"' {
                    Some('"')
                } else if d == '\\' {
                    Some('\\')
                } else if d == 'n' {
                    Some('\n')
                } else if d == 'r' {
                    Some('\r')
                } else if d == 't' {
                    Some('\t')
                } else {
                    None
                };
                match u {
                    Some(x) => {
                        self.pos = p + 2;
                        return Some(x);
                    },
                    None => {},
                }
            }
            return None;
        }
        if c == '"' || (c as u32) <= 0x1f {
            return None;
        }
        self.pos = p + 1;
        Some(c)
    }

    /// The string rule's body: `'"' ValueStringChars* '"'`.
    fn string_literal_body(&mut self) -> (r: Option<String>)
        requires
            old(self).wf(),
        ensures
            final(self).same_input(*old(self)),
            r matches Some(t) ==> gives_text(
                peg::string_literal(old(self).s(), old(self).at()),
                r,
                old(self).at(),
                final(self).at(),
            ),
            r is None ==> peg::string_literal(old(self).s(), old(self).at()) is None,
    {
        let ghost p = self.at();
        let ghost before = *self;
        proof {
            reveal_strlit("\"");
            assert("\""@ =~= seq!['\"']);
            lemma_matches_one(self.s(), p, '"');
        }
        if !self.literal("\"") {
            return None;
        }
        let mut text: Vec<char> = Vec::new();
        loop
            invariant
                self.same_input(before),
                p + 1 <= self.pos,
                peg::string_chars(self.s(), p + 1) == (
                    text@ + peg::string_chars(self.s(), self.at()).0,
                    peg::string_chars(self.s(), self.at()).1,
                ),
            ensures
                self.same_input(before),
                p + 1 <= self.pos,
                peg::string_chars(self.s(), p + 1) == (text@, self.at()),
            decreases self.chars@.len() - self.pos,
        {
            let ghost q = self.at();
            match self.string_char() {
                Some(c) => {
                    assert(text@.push(c) + peg::string_chars(self.s(), self.at()).0 =~= text@ + (
                    seq![c] + peg::string_chars(self.s(), self.at()).0));
                    text.push(c);
                },
                None => {
                    assert(text@ + Seq::<char>::empty() =~= text@);
                    break;
                },
            }
        }
        proof {
            lemma_matches_one(self.s(), self.at(), '"');
        }
        if !self.literal("\"") {
            return None;
        }
        Some(string_of(&text))
    }

    /// `ValueString 'string'`, returning the unescaped text.
    fn string_literal(&mut self) -> (r: Option<String>)
        requires
            old(self).wf(),
        ensures
            final(self).same_input(*old(self)),
            gives_text(peg::string_literal(old(self).s(), old(self).at()), r, old(self).at(), final(self).at()),
    {
        let start = self.pos;
        self.enter_named("string");
        let text = self.string_literal_body();
        self.leave_named();
        if text.is_none() {
            self.pos = start;
        }
        text
    }

    /// `'-'? [0-9]+ ('.' [0-9]+)?`, matched from the cursor.
    fn value_number_body(&mut self) -> (r: bool)
        requires
            old(self).wf(),
        ensures
            final(self).same_input(*old(self)),
            r == (peg::number_end(old(self).s(), old(self).at()) >= 0),
            r ==> final(self).pos == peg::number_end(old(self).s(), old(self).at()),
    {
        let ghost s = self.s();
        let ghost p = self.at();
        proof {
            reveal_strlit("-");
            assert("-"@ =~= seq!['-']);
            reveal_strlit(".");
            assert("."@ =~= seq!['.']);
            lemma_matches_one(s, p, '-');
        }
        self.literal("-");
        let ghost q = self.at();
        if !self.digit() {
            return false;
        }
        proof {
            peg::lemma_run_ends(s, q + 1);
        }
        self.digits();
        let mark = self.pos;
        proof {
            assert(peg::digits_end(s, q) == peg::digits_end(s, q + 1));
            lemma_matches_one(s, mark as int, '.');
        }
        if self.literal(".") {
            if !self.digit() {
                self.pos = mark;
                return true;
            }
            proof {
                assert(peg::digits_end(s, mark + 1) == peg::digits_end(s, mark + 2));
                peg::lemma_run_ends(s, mark + 2);
            }
            self.digits();
        }
        true
    }

    /// `ValueNumber 'number'`, returning the number's spelling.
    fn value_number(&mut self) -> (r: Option<String>)
        requires
            old(self).wf(),
        ensures
            final(self).same_input(*old(self)),
            gives_text(peg::number(old(self).s(), old(self).at()), r, old(self).at(), final(self).at()),
    {
        let start = self.pos;
        proof {
            peg::lemma_number_end(self.s(), self.at());
        }
        self.enter_named("number");
        let matched = self.value_number_body();
        self.leave_named();
        if !matched {
            self.pos = start;
            return None;
        }
        let text = self.slice(start, self.pos);
        let spelled = canonical_number_of(&text);
        Some(string_of(&spelled))
    }

    /// `TrailingComma = (_* ',')?`.
    fn trailing_comma(&mut self)
        requires
            old(self).wf(),
        ensures
            final(self).same_input(*old(self)),
            final(self).pos == peg::trailing_comma(old(self).s(), old(self).at()),
            final(self).pos >= old(self).pos,
    {
        let start = self.pos;
        proof {
            peg::lemma_run_ends(self.s(), start as int);
        }
        self.whitespace_star();
        proof {
            reveal_strlit(",");
            assert(","@ =~= seq![',']);
            lemma_matches_one(self.s(), self.at(), ',');
        }
        if !self.literal(",") {
            self.pos = start;
        }
    }

    /// `Value`: every nested value passes here, where the depth bound applies.
    pub(crate) fn value(&mut self) -> (r: Option<Value>)
        requires
            old(self).wf(),
        ensures
            final(self).same_input(*old(self)),
            gives_value(
                peg::value(old(self).s(), old(self).at(), old(self).depth as int),
                r,
                old(self).at(),
                final(self).at(),
            ),
        decreases peg::depth_left(old(self).depth as int), old(self).chars@.len() - old(self).pos, 0int,
    {
        if !self.enter_value() {
            return None;
        }
        let value = self.value_alternatives();
        self.leave_value();
        value
    }

    /// `Value`'s alternatives, in the grammar's order.
    fn value_alternatives(&mut self) -> (r: Option<Value>)
        requires
            old(self).wf(),
            old(self).depth >= 1,
        ensures
            final(self).same_input(*old(self)),
            gives_value(
                peg::value_alternatives(old(self).s(), old(self).at(), old(self).depth as int),
                r,
                old(self).at(),
                final(self).at(),
            ),
        decreases peg::depth_left(old(self).depth as int), old(self).chars@.len() - old(self).pos, 3int,
    {
        match self.value_null() {
            Some(v) => return Some(v),
            None => {},
        }
        match self.value_boolean() {
            Some(v) => return Some(v),
            None => {},
        }
        match self.string_literal() {
            Some(t) => return Some(Value::String(t)),
            None => {},
        }
        match self.value_number() {
            Some(n) => return Some(Value::Number(n)),
            None => {},
        }
        match self.value_array() {
            Some(v) => return Some(v),
            None => {},
        }
        match self.value_hash() {
            Some(v) => return Some(v),
            None => {},
        }
        match self.function() {
            Some(v) => return Some(v),
            None => {},
        }
        self.variable()
    }

    /// `ValueArray = '[' _* (Value ValueArrayTail* TrailingComma)? _* ']'`.
    fn value_array(&mut self) -> (r: Option<Value>)
        requires
            old(self).wf(),
            old(self).depth >= 1,
        ensures
            final(self).same_input(*old(self)),
            gives_value(
                peg::value_array(old(self).s(), old(self).at(), old(self).depth as int),
                r,
                old(self).at(),
                final(self).at(),
            ),
        decreases peg::depth_left(old(self).depth as int), old(self).chars@.len() - old(self).pos, 2int,
    {
        let ghost s = self.s();
        let ghost d = self.depth as int;
        let start = self.pos;
        proof {
            reveal_strlit("[");
            assert("["@ =~= seq!['[']);
            reveal_strlit("]");
            assert("]"@ =~= seq![']']);
            reveal_strlit(",");
            assert(","@ =~= seq![',']);
            lemma_matches_one(s, start as int, '[');
        }
        if !self.literal("[") {
            return None;
        }
        proof {
            peg::lemma_run_ends(s, start + 1);
        }
        self.whitespace_star();
        let mut items: Vec<Value> = Vec::new();
        let q = self.pos;
        let ghost inner = match peg::value(s, q as int, d) {
            Some((v, q1)) => if q < q1 <= s.len() {
                let (all, q2) = peg::array_tail(s, q1, d, seq![v]);
                (all, peg::trailing_comma(s, q2))
            } else {
                (Seq::empty(), q as int)
            },
            None => (Seq::empty(), q as int),
        };
        match self.value() {
            Some(head) => {
                let ghost q1 = self.at();
                let ghost hv = head.deep();
                items.push(head);
                proof {
                    lemma_values_push(Seq::empty(), items@[0]);
                    assert(items@ =~= Seq::<Value>::empty().push(items@[0]));
                }
                loop
                    invariant
                        self.same_input(*old(self)),
                        s == self.s(),
                        d == self.depth,
                        d >= 1,
                        start == old(self).pos,
                        start < q1 <= self.pos,
                        peg::array_tail(s, self.at(), d, values_view(items@)) == peg::array_tail(
                            s,
                            q1,
                            d,
                            seq![hv],
                        ),
                    ensures
                        self.same_input(*old(self)),
                        start < q1 <= self.pos,
                        peg::array_tail(s, q1, d, seq![hv]) == (values_view(items@), self.at()),
                    decreases self.chars@.len() - self.pos,
                {
                    let tail = self.pos;
                    proof {
                        peg::lemma_run_ends(s, tail as int);
                    }
                    self.whitespace_star();
                    proof {
                        reveal_strlit(",");
                        assert(","@ =~= seq![',']);
                        lemma_matches_one(s, self.at(), ',');
                    }
                    if !self.literal(",") {
                        self.pos = tail;
                        break;
                    }
                    proof {
                        peg::lemma_run_ends(s, self.at());
                    }
                    self.whitespace_star();
                    match self.value() {
                        Some(item) => {
                            proof {
                                lemma_values_push(items@, item);
                            }
                            items.push(item);
                        },
                        None => {
                            self.pos = tail;
                            break;
                        },
                    }
                }
                self.trailing_comma();
                assert(inner == (values_view(items@), self.at()));
            },
            None => {
                assert(values_view(items@) =~= Seq::empty());
                assert(inner == (values_view(items@), self.at()));
            },
        }
        proof {
            peg::lemma_run_ends(s, self.at());
            reveal_strlit("]");
            assert("]"@ =~= seq![']']);
        }
        self.whitespace_star();
        proof {
            lemma_matches_one(s, self.at(), ']');
        }
        if !self.literal("]") {
            self.pos = start;
            return None;
        }
        Some(Value::Array(items))
    }

    /// `ValueHashItem = (Identifier / ValueString) ':' _* Value`. The inner
    /// `None` is a `$$mdtype` entry, parsed and discarded.
    fn value_hash_item(&mut self) -> (r: Option<Option<(String, Value)>>)
        requires
            old(self).wf(),
            old(self).depth >= 1,
        ensures
            final(self).same_input(*old(self)),
            match peg::hash_item(old(self).s(), old(self).at(), old(self).depth as int) {
                Some((item, e)) => r matches Some(x) && item_view(x) == item && final(self).pos == e
                    && old(self).pos < e,
                None => r is None && final(self).pos == old(self).pos,
            },
        decreases peg::depth_left(old(self).depth as int), old(self).chars@.len() - old(self).pos, 1int,
    {
        let ghost s = self.s();
        let ghost d = self.depth as int;
        let start = self.pos;
        let key = match self.identifier() {
            Some(id) => id,
            None => match self.string_literal() {
                Some(k) => k,
                None => {
                    self.pos = start;
                    return None;
                },
            },
        };
        proof {
            reveal_strlit(":");
            assert(":"@ =~= seq![':']);
            lemma_matches_one(s, self.at(), ':');
        }
        if !self.literal(":") {
            self.pos = start;
            return None;
        }
        proof {
            peg::lemma_run_ends(s, self.at());
        }
        self.whitespace_star();
        let value = match self.value() {
            Some(v) => v,
            None => {
                self.pos = start;
                return None;
            },
        };
        if str_eq(key.as_str(), "$$mdtype") {
            return Some(None);
        }
        Some(Some((key, value)))
    }

    /// Inserts a parsed hash entry, if it was not discarded.
    fn insert_item(hash: &mut IndexMap<Value>, item: Option<(String, Value)>)
        ensures
            entries_view(final(hash)@) == peg::insert_items(entries_view(old(hash)@), item_view(item)),
    {
        match item {
            Some((k, v)) => {
                let ghost before = hash@;
                let ghost key = k;
                let ghost value = v;
                hash.insert(k, v);
                proof {
                    lemma_insert_view(before, hash@, key, value);
                }
            },
            None => {},
        }
    }

    /// `ValueHash = '{' _* (ValueHashItem ValueHashTail* TrailingComma)? _* '}'`.
    fn value_hash(&mut self) -> (r: Option<Value>)
        requires
            old(self).wf(),
            old(self).depth >= 1,
        ensures
            final(self).same_input(*old(self)),
            gives_value(
                peg::value_hash(old(self).s(), old(self).at(), old(self).depth as int),
                r,
                old(self).at(),
                final(self).at(),
            ),
        decreases peg::depth_left(old(self).depth as int), old(self).chars@.len() - old(self).pos, 2int,
    {
        let ghost s = self.s();
        let ghost d = self.depth as int;
        let start = self.pos;
        proof {
            reveal_strlit("{");
            assert("{"@ =~= seq!['{']);
            reveal_strlit("}");
            assert("}"@ =~= seq!['}']);
            reveal_strlit(",");
            assert(","@ =~= seq![',']);
            lemma_matches_one(s, start as int, '{');
        }
        if !self.literal("{") {
            return None;
        }
        proof {
            peg::lemma_run_ends(s, start + 1);
        }
        self.whitespace_star();
        let mut hash: IndexMap<Value> = IndexMap::new();
        let q = self.pos;
        let ghost inner = match peg::hash_item(s, q as int, d) {
            Some((item, q1)) => if q < q1 <= s.len() {
                let (all, q2) = peg::hash_tail(s, q1, d, peg::insert_items(Seq::empty(), item));
                (all, peg::trailing_comma(s, q2))
            } else {
                (Seq::empty(), q as int)
            },
            None => (Seq::empty(), q as int),
        };
        match self.value_hash_item() {
            Some(head) => {
                let ghost q1 = self.at();
                let ghost hv = item_view(head);
                Self::insert_item(&mut hash, head);
                assert(entries_view(Seq::<(String, Value)>::empty()) =~= Seq::empty());
                loop
                    invariant
                        self.same_input(*old(self)),
                        s == self.s(),
                        d == self.depth,
                        d >= 1,
                        start == old(self).pos,
                        start < q1 <= self.pos,
                        peg::hash_tail(s, self.at(), d, entries_view(hash@)) == peg::hash_tail(
                            s,
                            q1,
                            d,
                            peg::insert_items(Seq::empty(), hv),
                        ),
                    ensures
                        self.same_input(*old(self)),
                        start < q1 <= self.pos,
                        peg::hash_tail(s, q1, d, peg::insert_items(Seq::empty(), hv)) == (
                            entries_view(hash@),
                            self.at(),
                        ),
                    decreases self.chars@.len() - self.pos,
                {
                    let tail = self.pos;
                    proof {
                        peg::lemma_run_ends(s, tail as int);
                    }
                    self.whitespace_star();
                    proof {
                        reveal_strlit(",");
                        assert(","@ =~= seq![',']);
                        lemma_matches_one(s, self.at(), ',');
                    }
                    if !self.literal(",") {
                        self.pos = tail;
                        break;
                    }
                    proof {
                        peg::lemma_run_ends(s, self.at());
                    }
                    self.whitespace_star();
                    match self.value_hash_item() {
                        Some(item) => {
                            Self::insert_item(&mut hash, item);
                        },
                        None => {
                            self.pos = tail;
                            break;
                        },
                    }
                }
                self.trailing_comma();
                assert(inner == (entries_view(hash@), self.at()));
            },
            None => {
                assert(entries_view(hash@) =~= Seq::empty());
                assert(inner == (entries_view(hash@), self.at()));
            },
        }
        proof {
            peg::lemma_run_ends(s, self.at());
            reveal_strlit("}");
            assert("}"@ =~= seq!['}']);
        }
        self.whitespace_star();
        proof {
            lemma_matches_one(s, self.at(), '}');
        }
        if !self.literal("}") {
            self.pos = start;
            return None;
        }
        Some(Value::Hash(hash))
    }

    /// `FunctionParameter = (Identifier '=')? Value`.
    fn function_parameter(&mut self) -> (r: Option<(Option<String>, Value)>)
        requires
            old(self).wf(),
        ensures
            final(self).same_input(*old(self)),
            match peg::function_parameter(old(self).s(), old(self).at(), old(self).depth as int) {
                Some((param, e)) => r matches Some(x) && param_view(x) == param && final(self).pos
                    == e && old(self).pos < e,
                None => r is None && final(self).pos == old(self).pos,
            },
        decreases peg::depth_left(old(self).depth as int), old(self).chars@.len() - old(self).pos, 1int,
    {
        let ghost s = self.s();
        let start = self.pos;
        proof {
            reveal_strlit("=");
            assert("="@ =~= seq!['=']);
            peg::lemma_run_ends(s, start as int);
        }
        let name = match self.identifier() {
            Some(id) => {
                proof {
                    lemma_matches_one(s, self.at(), '=');
                }
                if self.literal("=") {
                    Some(id)
                } else {
                    self.pos = start;
                    None
                }
            },
            None => None,
        };
        match self.value() {
            Some(v) => Some((name, v)),
            None => {
                self.pos = start;
                None
            },
        }
    }

    /// `Function = Identifier '(' _* (FunctionParameter? FunctionParameterTail*)? ')'`.
    ///
    /// When the first parameter fails but the tail still matches, the call
    /// has no parameters: the tail is parsed and dropped.
    pub(crate) fn function(&mut self) -> (r: Option<Value>)
        requires
            old(self).wf(),
        ensures
            final(self).same_input(*old(self)),
            gives_value(
                peg::function(old(self).s(), old(self).at(), old(self).depth as int),
                r,
                old(self).at(),
                final(self).at(),
            ),
        decreases peg::depth_left(old(self).depth as int), old(self).chars@.len() - old(self).pos, 2int,
    {
        let ghost s = self.s();
        let ghost d = self.depth as int;
        let start = self.pos;
        let name = match self.identifier() {
            Some(n) => n,
            None => return None,
        };
        proof {
            reveal_strlit("(");
            assert("("@ =~= seq!['(']);
            reveal_strlit(")");
            assert(")"@ =~= seq![')']);
            reveal_strlit(",");
            assert(","@ =~= seq![',']);
            lemma_matches_one(s, self.at(), '(');
        }
        if !self.literal("(") {
            self.pos = start;
            return None;
        }
        proof {
            peg::lemma_run_ends(s, self.at());
        }
        self.whitespace_star();
        let ghost q = self.at();
        let head = self.function_parameter();
        let ghost h = self.at();
        let ghost head_view = head_view_of(head);
        let has_head = head.is_some();
        let mut parameters: IndexMap<Value> = IndexMap::new();
        match head {
            Some((n0, v0)) => {
                let key = match n0 {
                    Some(k) => k,
                    None => Function::positional_key(0),
                };
                let ghost before = parameters@;
                let ghost gk = key;
                let ghost gv = v0;
                parameters.insert(key, v0);
                proof {
                    lemma_insert_view(before, parameters@, gk, gv);
                    lemma_keyed_push(Seq::empty(), head_view->0, 0, Seq::empty());
                    assert(Seq::<(Option<Seq<char>>, SpecValue)>::empty().push(head_view->0) =~= seq![head_view->0]);
                    assert(entries_view(Seq::<(String, Value)>::empty()) =~= Seq::empty());
                    assert(crate::text::decimal(0) =~= seq!['0']);
                }
            },
            None => {},
        }
        let mut count: usize = 0;
        let ghost mut acc: Seq<(Option<Seq<char>>, SpecValue)> = Seq::empty();
        assert(seq![head_view->0] + acc =~= seq![head_view->0]);
        loop
            invariant
                self.same_input(*old(self)),
                s == self.s(),
                d == self.depth,
                start == old(self).pos,
                start < q <= h <= self.pos,
                acc.len() == count,
                count <= self.pos - h,
                has_head == (head_view is Some),
                peg::function_tail(s, self.at(), d, acc) == peg::function_tail(s, h, d, Seq::empty()),
                has_head ==> entries_view(parameters@) == peg::keyed(seq![head_view->0] + acc, 0, Seq::empty()),
                !has_head ==> entries_view(parameters@) == Seq::<(Seq<char>, SpecValue)>::empty(),
            ensures
                self.same_input(*old(self)),
                start < q <= h <= self.pos,
                peg::function_tail(s, h, d, Seq::empty()) == (acc, self.at()),
                has_head ==> entries_view(parameters@) == peg::keyed(seq![head_view->0] + acc, 0, Seq::empty()),
                !has_head ==> entries_view(parameters@) == Seq::<(Seq<char>, SpecValue)>::empty(),
            decreases self.chars@.len() - self.pos,
        {
            let mark = self.pos;
            proof {
                peg::lemma_run_ends(s, mark as int);
            }
            self.whitespace_star();
            proof {
                reveal_strlit(",");
                assert(","@ =~= seq![',']);
                lemma_matches_one(s, self.at(), ',');
            }
            if !self.literal(",") {
                self.pos = mark;
                break;
            }
            proof {
                peg::lemma_run_ends(s, self.at());
            }
            self.whitespace_star();
            match self.function_parameter() {
                Some((pname, pv)) => {
                    let ghost pview = param_parts_view(pname, pv);
                    if has_head {
                        let key = match pname {
                            Some(k) => k,
                            None => Function::positional_key(count + 1),
                        };
                        let ghost before = parameters@;
                        let ghost gk = key;
                        let ghost gv = pv;
                        parameters.insert(key, pv);
                        proof {
                            lemma_insert_view(before, parameters@, gk, gv);
                            lemma_keyed_push(seq![head_view->0] + acc, pview, 0, Seq::empty());
                            assert((seq![head_view->0] + acc).push(pview) =~= seq![head_view->0] + acc.push(pview));
                        }
                    }
                    proof {
                        acc = acc.push(pview);
                    }
                    count = count + 1;
                },
                None => {
                    self.pos = mark;
                    break;
                },
            }
        }
        proof {
            lemma_matches_one(s, self.at(), ')');
        }
        if !self.literal(")") {
            self.pos = start;
            return None;
        }
        Some(Value::Function(Function::new(name, parameters)))
    }

    /// `VariableTail = '.' Identifier / '[' (ValueNumber / ValueString) ']'`.
    fn variable_tail(&mut self) -> (r: Option<PathSegment>)
        requires
            old(self).wf(),
        ensures
            final(self).same_input(*old(self)),
            match peg::variable_tail(old(self).s(), old(self).at()) {
                Some((seg, e)) => r matches Some(x) && segment_view(x) == seg && final(self).pos == e
                    && old(self).pos < e,
                None => r is None && final(self).pos == old(self).pos,
            },
    {
        let ghost s = self.s();
        let start = self.pos;
        proof {
            reveal_strlit(".");
            assert("."@ =~= seq!['.']);
            reveal_strlit("[");
            assert("["@ =~= seq!['[']);
            reveal_strlit("]");
            assert("]"@ =~= seq![']']);
            lemma_matches_one(s, start as int, '.');
            lemma_matches_one(s, start as int, '[');
            peg::lemma_variable_tail(s, start as int);
        }
        if self.literal(".") {
            match self.identifier() {
                Some(name) => return Some(PathSegment::Key(name)),
                None => {
                    self.pos = start;
                    return None;
                },
            }
        }
        if !self.literal("[") {
            return None;
        }
        let segment = match self.value_number() {
            Some(n) => PathSegment::Index(n),
            None => match self.string_literal() {
                Some(k) => PathSegment::Key(k),
                None => {
                    self.pos = start;
                    return None;
                },
            },
        };
        proof {
            lemma_matches_one(s, self.at(), ']');
        }
        if !self.literal("]") {
            self.pos = start;
            return None;
        }
        Some(segment)
    }

    /// The steps of an `@` path, as the plain array it parses to.
    fn path_steps(path: &Vec<PathSegment>) -> (steps: Vec<Value>)
        ensures
            values_view(steps@) == path_view(path@).map_values(|g: SpecSegment| peg::step_value(g)),
    {
        let mut steps: Vec<Value> = Vec::new();
        let mut i: usize = 0;
        while i < path.len()
            invariant
                i <= path@.len(),
                values_view(steps@) == path_view(path@).take(i as int).map_values(
                    |g: SpecSegment| peg::step_value(g),
                ),
            decreases path.len() - i,
        {
            let v = match &path[i] {
                PathSegment::Key(k) => Value::String(k.clone()),
                PathSegment::Index(n) => Value::Number(n.clone()),
            };
            proof {
                lemma_values_push(steps@, v);
            }
            steps.push(v);
            i = i + 1;
            assert(values_view(steps@) =~= path_view(path@).take(i as int).map_values(
                |g: SpecSegment| peg::step_value(g),
            ));
        }
        assert(path_view(path@).take(i as int) =~= path_view(path@));
        steps
    }

    /// The variable rule's body: `[$@] Identifier VariableTail*`.
    fn variable_body(&mut self) -> (r: Option<Value>)
        requires
            old(self).wf(),
        ensures
            final(self).same_input(*old(self)),
            r is Some ==> gives_value(peg::variable(old(self).s(), old(self).at()), r, old(self).at(), final(self).at()),
            r is None ==> peg::variable(old(self).s(), old(self).at()) is None,
    {
        let ghost s = self.s();
        let ghost p = self.at();
        let prefix = match self.peek() {
            Some(c) => c,
            None => return None,
        };
        if prefix != '$' && prefix != '@' {
            return None;
        }
        self.pos = self.pos + 1;
        let head = match self.identifier() {
            Some(h) => h,
            None => return None,
        };
        let ghost q = self.at();
        let ghost hk = head@;
        let mut path: Vec<PathSegment> = Vec::new();
        path.push(PathSegment::Key(head));
        assert(path_view(path@) =~= seq![SpecSegment::Key(hk)]);
        loop
            invariant
                self.same_input(*old(self)),
                s == self.s(),
                p < q <= self.pos,
                peg::variable_tails(s, self.at(), path_view(path@)) == peg::variable_tails(
                    s,
                    q,
                    seq![SpecSegment::Key(hk)],
                ),
            ensures
                self.same_input(*old(self)),
                p < q <= self.pos,
                peg::variable_tails(s, q, seq![SpecSegment::Key(hk)]) == (path_view(path@), self.at()),
            decreases self.chars@.len() - self.pos,
        {
            match self.variable_tail() {
                Some(seg) => {
                    assert(path_view(path@.push(seg)) =~= path_view(path@).push(segment_view(seg)));
                    path.push(seg);
                },
                None => break,
            }
        }
        if prefix == '@' {
            let steps = Self::path_steps(&path);
            return Some(Value::Array(steps));
        }
        Some(Value::Variable(Variable::new(path)))
    }

    /// `Variable 'variable' = [$@] Identifier VariableTail*`: a `$` path is a
    /// variable, an `@` path a plain array of its steps.
    pub(crate) fn variable(&mut self) -> (r: Option<Value>)
        requires
            old(self).wf(),
        ensures
            final(self).same_input(*old(self)),
            gives_value(peg::variable(old(self).s(), old(self).at()), r, old(self).at(), final(self).at()),
    {
        let start = self.pos;
        self.enter_named("variable");
        let value = self.variable_body();
        self.leave_named();
        if value.is_none() {
            self.pos = start;
        }
        value
    }
}

} // verus!
