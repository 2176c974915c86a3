//! The value lattice: everything a tag attribute, a function parameter, an
//! array element, or a hash entry can hold.
//!
//! Hashes and function parameters keep authored order. A number is carried as
//! the ECMAScript spelling of its value (see `number.rs`), so `1` and `1.0`
//! are the same value.

use vstd::prelude::*;

use crate::ast::IndexMap;
use crate::text::{decimal, decimal_string};

verus! {

/// A value produced by the tag grammar.
#[derive(Debug)]
#[non_exhaustive]
pub enum Value {
    /// `null`.
    Null,
    /// `true` or `false`.
    Boolean(bool),
    /// A double-quoted string, unescaped.
    String(String),
    /// A number, as the ECMAScript spelling of its value: `42`, `-1.5`,
    /// `1e+21`.
    Number(String),
    /// `[1, 2, 3]`, and also what an `@`-prefixed variable path parses to.
    Array(Vec<Value>),
    /// `{key: "value"}`, in authored order.
    Hash(IndexMap<Value>),
    /// A function call, `f(1, x=2)`.
    Function(Function),
    /// A `$`-prefixed variable reference, `$foo.bar[0]`.
    Variable(Variable),
}

/// One step of a variable path.
#[derive(Clone, Debug, PartialEq, Eq)]
#[non_exhaustive]
pub enum PathSegment {
    /// A named step: `.name`, or the string form `["name"]`.
    Key(String),
    /// A numeric step, `[0]`, as the ECMAScript spelling of its value.
    Index(String),
}

/// A `$`-prefixed variable reference: `$foo`, `$foo.bar`, `$foo[0].bar`.
#[derive(Clone, Debug, PartialEq, Eq)]
pub struct Variable {
    /// The path, in source order.
    pub path: Vec<PathSegment>,
}

/// A function call: a name and its parameters.
///
/// A positional parameter keys on its index in the whole argument list, as a
/// decimal string: `f(1, x=2)` is `{"0": 1, "x": 2}`. Two calls are equal
/// when their names are and their parameters are equal as maps, in any order.
#[derive(Debug)]
pub struct Function {
    /// The function name, as written.
    pub name: String,
    /// The parameters, in authored order.
    pub parameters: IndexMap<Value>,
}

/// A path step, as plain data.
pub enum SpecSegment {
    /// A named step.
    Key(Seq<char>),
    /// A numeric step.
    Index(Seq<char>),
}

/// A value, as plain data: what a [`Value`] means.
#[verifier::ext_equal]
pub enum SpecValue {
    /// `null`.
    Null,
    /// A boolean.
    Boolean(bool),
    /// A string.
    String(Seq<char>),
    /// A number's spelling.
    Number(Seq<char>),
    /// An array.
    Array(Seq<SpecValue>),
    /// A hash, in authored order.
    Hash(Seq<(Seq<char>, SpecValue)>),
    /// A function call: its name and parameters.
    Function(Seq<char>, Seq<(Seq<char>, SpecValue)>),
    /// A variable path.
    Variable(Seq<SpecSegment>),
}

/// What a path step means.
pub open spec fn segment_view(segment: PathSegment) -> SpecSegment {
    match segment {
        PathSegment::Key(key) => SpecSegment::Key(key@),
        PathSegment::Index(index) => SpecSegment::Index(index@),
    }
}

/// What a path means.
pub open spec fn path_view(path: Seq<PathSegment>) -> Seq<SpecSegment> {
    Seq::new(path.len(), |i: int| segment_view(path[i]))
}

/// What a sequence of values means.
pub open spec fn values_view(items: Seq<Value>) -> Seq<SpecValue>
    decreases items,
{
    if items.len() == 0 {
        Seq::empty()
    } else {
        values_view(items.drop_last()).push(items.last().deep())
    }
}

/// What a sequence of keyed values means.
pub open spec fn entries_view(items: Seq<(String, Value)>) -> Seq<(Seq<char>, SpecValue)>
    decreases items,
{
    if items.len() == 0 {
        Seq::empty()
    } else {
        entries_view(items.drop_last()).push((items.last().0@, items.last().1.deep()))
    }
}

impl Value {
    /// What this value means.
    pub open spec fn deep(&self) -> SpecValue
        decreases self,
    {
        match self {
            Value::Null => SpecValue::Null,
            Value::Boolean(b) => SpecValue::Boolean(*b),
            Value::String(s) => SpecValue::String(s@),
            Value::Number(n) => SpecValue::Number(n@),
            Value::Array(items) => SpecValue::Array(values_view(items@)),
            Value::Hash(map) => SpecValue::Hash(entries_view(map.entries@)),
            Value::Function(function) => SpecValue::Function(
                function.name@,
                entries_view(function.parameters.entries@),
            ),
            Value::Variable(variable) => SpecValue::Variable(path_view(variable.path@)),
        }
    }

    /// Whether JavaScript would treat this value as truthy.
    ///
    /// `null`, `false`, `0` and `""` are falsy; empty collections are truthy,
    /// as in JavaScript. A falsy primary value is parsed and then dropped by
    /// the tag grammar, which is why this exists.
    pub fn is_truthy(&self) -> (b: bool)
        ensures
            b == spec_truthy(self.deep()),
    {
        match self {
            Value::Null => false,
            Value::Boolean(b) => *b,
            Value::String(s) => !s.as_str().is_empty(),
            Value::Number(n) => !crate::ast::str_eq(n.as_str(), "0"),
            Value::Array(_) | Value::Hash(_) | Value::Function(_) | Value::Variable(_) => true,
        }
    }
}

/// JavaScript truthiness of a value.
pub open spec fn spec_truthy(v: SpecValue) -> bool {
    match v {
        SpecValue::Null => false,
        SpecValue::Boolean(b) => b,
        SpecValue::String(s) => s.len() != 0,
        SpecValue::Number(n) => n != "0"@,
        _ => true,
    }
}

impl Variable {
    /// A variable reference from its path.
    pub fn new(path: Vec<PathSegment>) -> (v: Variable)
        ensures
            v.path == path,
    {
        Variable { path }
    }
}

impl Function {
    /// A function call from its name and parameters.
    pub fn new(name: String, parameters: IndexMap<Value>) -> (f: Function)
        ensures
            f.name == name,
            f.parameters == parameters,
    {
        Function { name, parameters }
    }

    /// The parameter key for a positional argument at `index`: its decimal
    /// spelling, as JavaScript coerces an index to a property name.
    pub fn positional_key(index: usize) -> (k: String)
        ensures
            k@ == decimal(index as nat),
    {
        decimal_string(index as u64)
    }
}

/// The index of the entry whose key is `key`, or -1.
pub open spec fn entry_index(entries: Seq<(Seq<char>, SpecValue)>, key: Seq<char>) -> int
    decreases entries.len(),
{
    if entries.len() == 0 {
        -1
    } else if entries.last().0 == key {
        entries.len() - 1
    } else {
        entry_index(entries.drop_last(), key)
    }
}

/// When two values are equal: structurally, except that a hash and a
/// function's parameters compare as maps -- the same keys, each with an equal
/// value, in any order.
pub open spec fn value_eq(a: SpecValue, b: SpecValue) -> bool
    decreases a,
{
    match a {
        SpecValue::Null => b is Null,
        SpecValue::Boolean(x) => b matches SpecValue::Boolean(y) && x == y,
        SpecValue::String(x) => b matches SpecValue::String(y) && x == y,
        SpecValue::Number(x) => b matches SpecValue::Number(y) && x == y,
        SpecValue::Variable(x) => b matches SpecValue::Variable(y) && x == y,
        SpecValue::Array(xs) => b matches SpecValue::Array(ys) && xs.len() == ys.len() && forall|i: int|
            0 <= i < xs.len() ==> value_eq(#[trigger] xs[i], ys[i]),
        SpecValue::Hash(xs) => b matches SpecValue::Hash(ys) && xs.len() == ys.len() && forall|i: int|
            0 <= i < xs.len() ==> entry_index(ys, (#[trigger] xs[i]).0) >= 0 && value_eq(
                xs[i].1,
                ys[entry_index(ys, xs[i].0)].1,
            ),
        SpecValue::Function(n, xs) => b matches SpecValue::Function(m, ys) && n == m && xs.len()
            == ys.len() && forall|i: int|
            0 <= i < xs.len() ==> entry_index(ys, (#[trigger] xs[i]).0) >= 0 && value_eq(
                xs[i].1,
                ys[entry_index(ys, xs[i].0)].1,
            ),
    }
}

/// How many values a value holds, itself included.
pub open spec fn value_size(v: SpecValue) -> nat
    decreases v,
{
    match v {
        SpecValue::Array(xs) => 1 + values_size(xs),
        SpecValue::Hash(es) => 1 + entries_size(es),
        SpecValue::Function(_, es) => 1 + entries_size(es),
        _ => 1,
    }
}

/// The sizes of a list of values, added up.
pub open spec fn values_size(xs: Seq<SpecValue>) -> nat
    decreases xs,
{
    if xs.len() == 0 {
        0
    } else {
        values_size(xs.drop_last()) + value_size(xs.last())
    }
}

/// The sizes of a list of keyed values, added up.
pub open spec fn entries_size(es: Seq<(Seq<char>, SpecValue)>) -> nat
    decreases es,
{
    if es.len() == 0 {
        0
    } else {
        entries_size(es.drop_last()) + value_size(es.last().1)
    }
}

/// The meaning of a list of values, element by element.
pub proof fn lemma_values_view(items: Seq<Value>)
    ensures
        values_view(items).len() == items.len(),
        forall|i: int| 0 <= i < items.len() ==> #[trigger] values_view(items)[i] == items[i].deep(),
    decreases items.len(),
{
    if items.len() > 0 {
        lemma_values_view(items.drop_last());
        assert forall|i: int| 0 <= i < items.len() implies #[trigger] values_view(items)[i]
            == items[i].deep() by {
            if i < items.len() - 1 {
                assert(items.drop_last()[i] == items[i]);
            }
        }
    }
}

/// The meaning of keyed values, entry by entry.
pub proof fn lemma_entries_view_index(e: Seq<(String, Value)>)
    ensures
        entries_view(e).len() == e.len(),
        forall|i: int| 0 <= i < e.len() ==> #[trigger] entries_view(e)[i] == (e[i].0@, e[i].1.deep()),
    decreases e.len(),
{
    if e.len() > 0 {
        lemma_entries_view_index(e.drop_last());
        assert forall|i: int| 0 <= i < e.len() implies #[trigger] entries_view(e)[i] == (
            e[i].0@,
            e[i].1.deep(),
        ) by {
            if i < e.len() - 1 {
                assert(e.drop_last()[i] == e[i]);
            }
        }
    }
}

/// Looking a key up in the meaning finds it where it is in the entries.
pub proof fn lemma_entry_index(e: Seq<(String, Value)>, k: Seq<char>)
    ensures
        entry_index(entries_view(e), k) == crate::ast::key_index(e, k),
    decreases e.len(),
{
    lemma_entries_view_index(e);
    if e.len() > 0 {
        lemma_entry_index(e.drop_last(), k);
        assert(entries_view(e).drop_last() =~= entries_view(e.drop_last()));
    }
}

/// Every pair on a work list is equal.
pub open spec fn all_equal<'a>(work: Seq<(&'a Value, &'a Value)>) -> bool {
    forall|k: int| 0 <= k < work.len() ==> value_eq((#[trigger] work[k]).0.deep(), work[k].1.deep())
}

/// The work left on a work list.
pub open spec fn work_size<'a>(work: Seq<(&'a Value, &'a Value)>) -> nat
    decreases work.len(),
{
    if work.len() == 0 {
        0
    } else {
        work_size(work.drop_last()) + value_size(work.last().0.deep())
    }
}

/// Whether two values are equal, by a work list rather than by recursion,
/// so that deep values cannot exhaust the call stack.
pub fn values_equal(a: &Value, b: &Value) -> (r: bool)
    ensures
        r == value_eq(a.deep(), b.deep()),
{
    let mut work: Vec<(&Value, &Value)> = Vec::new();
    work.push((a, b));
    assert(work@[0] == (a, b));
    assert(all_equal(work@) == value_eq(a.deep(), b.deep())) by {
        if value_eq(a.deep(), b.deep()) {
            assert forall|k: int| 0 <= k < work@.len() implies value_eq(
                (#[trigger] work@[k]).0.deep(),
                work@[k].1.deep(),
            ) by {
                assert(k == 0);
            }
        }
    }
    loop
        invariant
            all_equal(work@) == value_eq(a.deep(), b.deep()),
        decreases work_size(work@),
    {
        let ghost before = work@;
        match work.pop() {
            None => {
                return true;
            },
            Some((left, right)) => {
                proof {
                    assert(before.drop_last() =~= work@);
                    assert(all_equal(before) == (all_equal(work@) && value_eq(left.deep(), right.deep()))) by {
                        if all_equal(work@) && value_eq(left.deep(), right.deep()) {
                            assert forall|k: int| 0 <= k < before.len() implies value_eq(
                                (#[trigger] before[k]).0.deep(),
                                before[k].1.deep(),
                            ) by {
                                if k < before.len() - 1 {
                                    assert(before[k] == work@[k]);
                                }
                            }
                        }
                        if all_equal(before) {
                            assert(before[before.len() - 1] == (left, right));
                            assert forall|k: int| 0 <= k < work@.len() implies value_eq(
                                (#[trigger] work@[k]).0.deep(),
                                work@[k].1.deep(),
                            ) by {
                                assert(before[k] == work@[k]);
                            }
                        }
                    }
                }
                match (left, right) {
                    (Value::Null, Value::Null) => {},
                    (Value::Boolean(x), Value::Boolean(y)) => {
                        if *x != *y {
                            return false;
                        }
                    },
                    (Value::String(x), Value::String(y)) => {
                        if !crate::ast::str_eq(x.as_str(), y.as_str()) {
                            return false;
                        }
                    },
                    (Value::Number(x), Value::Number(y)) => {
                        if !crate::ast::str_eq(x.as_str(), y.as_str()) {
                            return false;
                        }
                    },
                    (Value::Variable(x), Value::Variable(y)) => {
                        if !paths_equal(&x.path, &y.path) {
                            return false;
                        }
                    },
                    (Value::Array(xs), Value::Array(ys)) => {
                        if xs.len() != ys.len() {
                            proof {
                                lemma_values_view(xs@);
                                lemma_values_view(ys@);
                                assert(left.deep() == SpecValue::Array(values_view(xs@)));
                                assert(right.deep() == SpecValue::Array(values_view(ys@)));
                                assert(!value_eq(left.deep(), right.deep()));
                            }
                            return false;
                        }
                        proof {
                            assert(left.deep() == SpecValue::Array(values_view(xs@)));
                            assert(right.deep() == SpecValue::Array(values_view(ys@)));
                            lemma_values_view(xs@);
                            lemma_values_view(ys@);
                        }
                        push_items(&mut work, xs, ys);
                    },
                    (Value::Hash(xs), Value::Hash(ys)) => {
                        if xs.len() != ys.len() {
                            proof {
                                lemma_entries_view_index(xs@);
                                lemma_entries_view_index(ys@);
                                assert(left.deep() == SpecValue::Hash(entries_view(xs@)));
                                assert(right.deep() == SpecValue::Hash(entries_view(ys@)));
                                assert(!value_eq(left.deep(), right.deep()));
                            }
                            return false;
                        }
                        proof {
                            assert(left.deep() == SpecValue::Hash(entries_view(xs@)));
                            assert(right.deep() == SpecValue::Hash(entries_view(ys@)));
                            lemma_entries_view_index(xs@);
                            lemma_entries_view_index(ys@);
                        }
                        if !push_entries(&mut work, xs, ys) {
                            return false;
                        }
                    },
                    (Value::Function(f), Value::Function(g)) => {
                        if !crate::ast::str_eq(f.name.as_str(), g.name.as_str()) {
                            return false;
                        }
                        if f.parameters.len() != g.parameters.len() {
                            proof {
                                lemma_entries_view_index(f.parameters@);
                                lemma_entries_view_index(g.parameters@);
                            }
                            return false;
                        }
                        proof {
                            assert(left.deep() == SpecValue::Function(f.name@, entries_view(f.parameters@)));
                            assert(right.deep() == SpecValue::Function(g.name@, entries_view(g.parameters@)));
                            lemma_entries_view_index(f.parameters@);
                            lemma_entries_view_index(g.parameters@);
                        }
                        if !push_entries(&mut work, &f.parameters, &g.parameters) {
                            return false;
                        }
                    },
                    _ => {
                        return false;
                    },
                }
            },
        }
    }
}

/// Whether two paths are the same steps.
fn paths_equal(a: &Vec<PathSegment>, b: &Vec<PathSegment>) -> (r: bool)
    ensures
        r == (path_view(a@) == path_view(b@)),
{
    if a.len() != b.len() {
        assert(path_view(a@).len() != path_view(b@).len());
        return false;
    }
    let mut i: usize = 0;
    while i < a.len()
        invariant
            i <= a@.len(),
            a@.len() == b@.len(),
            forall|j: int| 0 <= j < i ==> segment_view(a@[j]) == segment_view(b@[j]),
        decreases a.len() - i,
    {
        let same = match (&a[i], &b[i]) {
            (PathSegment::Key(x), PathSegment::Key(y)) => crate::ast::str_eq(x.as_str(), y.as_str()),
            (PathSegment::Index(x), PathSegment::Index(y)) => crate::ast::str_eq(x.as_str(), y.as_str()),
            _ => false,
        };
        if !same {
            assert(path_view(a@)[i as int] != path_view(b@)[i as int]);
            return false;
        }
        i = i + 1;
    }
    assert(path_view(a@) =~= path_view(b@));
    true
}

/// Queue each pair of elements.
fn push_items<'a>(work: &mut Vec<(&'a Value, &'a Value)>, xs: &'a Vec<Value>, ys: &'a Vec<Value>)
    requires
        xs@.len() == ys@.len(),
    ensures
        all_equal(final(work)@) == (all_equal(old(work)@) && forall|i: int|
            0 <= i < xs@.len() ==> value_eq(#[trigger] values_view(xs@)[i], values_view(ys@)[i])),
        work_size(final(work)@) + 1 == work_size(old(work)@) + value_size(SpecValue::Array(values_view(xs@))),
{
    proof {
        lemma_values_view(xs@);
        lemma_values_view(ys@);
    }
    let ghost base = work@;
    let mut i: usize = 0;
    while i < xs.len()
        invariant
            i <= xs@.len(),
            xs@.len() == ys@.len(),
            work@.len() == base.len() + i,
            forall|k: int| 0 <= k < base.len() ==> work@[k] == base[k],
            forall|k: int| 0 <= k < i ==> #[trigger] work@[base.len() + k] == (&xs@[k], &ys@[k]),
            work_size(work@) == work_size(base) + values_size(values_view(xs@).take(i as int)),
            values_view(xs@).len() == xs@.len(),
            forall|k: int| 0 <= k < xs@.len() ==> #[trigger] values_view(xs@)[k] == xs@[k].deep(),
            forall|k: int| 0 <= k < ys@.len() ==> #[trigger] values_view(ys@)[k] == ys@[k].deep(),
        decreases xs.len() - i,
    {
        let ghost prior = work@;
        work.push((&xs[i], &ys[i]));
        proof {
            assert(work@.drop_last() =~= prior);
            let t = values_view(xs@).take(i + 1);
            assert(t.drop_last() =~= values_view(xs@).take(i as int));
        }
        i = i + 1;
    }
    proof {
        assert(values_view(xs@).take(i as int) =~= values_view(xs@));
        let w = work@;
        if all_equal(w) {
            assert forall|k: int| 0 <= k < base.len() implies value_eq(
                (#[trigger] base[k]).0.deep(),
                base[k].1.deep(),
            ) by {
                assert(w[k] == base[k]);
            }
            assert forall|j: int| 0 <= j < xs@.len() implies value_eq(
                #[trigger] values_view(xs@)[j],
                values_view(ys@)[j],
            ) by {
                assert(w[base.len() + j] == (&xs@[j], &ys@[j]));
            }
        }
        if all_equal(base) && forall|j: int|
            0 <= j < xs@.len() ==> value_eq(#[trigger] values_view(xs@)[j], values_view(ys@)[j]) {
            assert forall|k: int| 0 <= k < w.len() implies value_eq(
                (#[trigger] w[k]).0.deep(),
                w[k].1.deep(),
            ) by {
                if k < base.len() {
                    assert(w[k] == base[k]);
                } else {
                    let j = k - base.len();
                    assert(w[base.len() + j] == (&xs@[j], &ys@[j]));
                    assert(value_eq(values_view(xs@)[j], values_view(ys@)[j]));
                }
            }
        }
    }
}

/// Queue each entry of `xs` with the entry of `ys` under the same key; false
/// when a key of `xs` is missing from `ys`.
fn push_entries<'a>(work: &mut Vec<(&'a Value, &'a Value)>, xs: &'a IndexMap<Value>, ys: &'a IndexMap<Value>) -> (found: bool)
    requires
        xs@.len() == ys@.len(),
    ensures
        !found ==> exists|i: int|
            0 <= i < xs@.len() && entry_index(entries_view(ys@), (#[trigger] entries_view(xs@)[i]).0) < 0,
        found ==> forall|i: int|
            0 <= i < xs@.len() ==> entry_index(entries_view(ys@), (#[trigger] entries_view(xs@)[i]).0) >= 0,
        found ==> all_equal(final(work)@) == (all_equal(old(work)@) && forall|i: int|
            0 <= i < xs@.len() ==> value_eq(
                (#[trigger] entries_view(xs@)[i]).1,
                entries_view(ys@)[entry_index(entries_view(ys@), entries_view(xs@)[i].0)].1,
            )),
        found ==> work_size(final(work)@) + 1 == work_size(old(work)@) + value_size(
            SpecValue::Hash(entries_view(xs@)),
        ),
{
    proof {
        lemma_entries_view_index(xs@);
        lemma_entries_view_index(ys@);
    }
    let ghost ex = entries_view(xs@);
    let ghost ey = entries_view(ys@);
    let ghost base = work@;
    let entries = xs.entries();
    let mut i: usize = 0;
    while i < entries.len()
        invariant
            i <= xs@.len(),
            entries@ == xs@,
            ex == entries_view(xs@),
            ey == entries_view(ys@),
            ex.len() == xs@.len(),
            ey.len() == ys@.len(),
            forall|k: int| 0 <= k < xs@.len() ==> #[trigger] ex[k] == (xs@[k].0@, xs@[k].1.deep()),
            forall|k: int| 0 <= k < ys@.len() ==> #[trigger] ey[k] == (ys@[k].0@, ys@[k].1.deep()),
            work@.len() == base.len() + i,
            forall|k: int| 0 <= k < base.len() ==> work@[k] == base[k],
            forall|k: int|
                0 <= k < i ==> entry_index(ey, (#[trigger] ex[k]).0) >= 0 && entry_index(ey, ex[k].0) < ys@.len() && work@[base.len() + k] == (
                    &xs@[k].1,
                    &ys@[entry_index(ey, ex[k].0)].1,
                ),
            work_size(work@) == work_size(base) + entries_size(ex.take(i as int)),
        decreases xs@.len() - i,
    {
        let (key, value) = &entries[i];
        proof {
            lemma_entry_index(ys@, key@);
            crate::ast::lemma_key_index(ys@, key@);
        }
        match ys.get(key.as_str()) {
            None => {
                assert(entry_index(ey, ex[i as int].0) < 0);
                return false;
            },
            Some(other) => {
                let ghost prior = work@;
                work.push((value, other));
                proof {
                    assert(work@.drop_last() =~= prior);
                    let t = ex.take(i + 1);
                    assert(t.drop_last() =~= ex.take(i as int));
                }
                i = i + 1;
            },
        }
    }
    proof {
        assert(ex.take(i as int) =~= ex);
        let w = work@;
        if all_equal(w) {
            assert forall|k: int| 0 <= k < base.len() implies value_eq(
                (#[trigger] base[k]).0.deep(),
                base[k].1.deep(),
            ) by {
                assert(w[k] == base[k]);
            }
            assert forall|j: int| 0 <= j < xs@.len() implies value_eq(
                (#[trigger] ex[j]).1,
                ey[entry_index(ey, ex[j].0)].1,
            ) by {
                assert(w[base.len() + j] == (&xs@[j].1, &ys@[entry_index(ey, ex[j].0)].1));
            }
        }
        if all_equal(base) && forall|j: int|
            0 <= j < xs@.len() ==> value_eq((#[trigger] ex[j]).1, ey[entry_index(ey, ex[j].0)].1) {
            assert forall|k: int| 0 <= k < w.len() implies value_eq(
                (#[trigger] w[k]).0.deep(),
                w[k].1.deep(),
            ) by {
                if k < base.len() {
                    assert(w[k] == base[k]);
                } else {
                    let j = k - base.len();
                    assert(w[base.len() + j] == (&xs@[j].1, &ys@[entry_index(ey, ex[j].0)].1));
                    assert(value_eq(ex[j].1, ey[entry_index(ey, ex[j].0)].1));
                }
            }
        }
    }
    true
}

/// Whether two maps of values are equal: the same keys, each with an equal
/// value, in any order.
pub fn maps_equal(xs: &IndexMap<Value>, ys: &IndexMap<Value>) -> (r: bool)
    ensures
        r == value_eq(SpecValue::Hash(entries_view(xs@)), SpecValue::Hash(entries_view(ys@))),
{
    proof {
        lemma_entries_view_index(xs@);
        lemma_entries_view_index(ys@);
    }
    if xs.len() != ys.len() {
        return false;
    }
    let mut work: Vec<(&Value, &Value)> = Vec::new();
    if !push_entries(&mut work, xs, ys) {
        return false;
    }
    assert(all_equal(Seq::<(&Value, &Value)>::empty()));
    assert(all_equal(work@) == value_eq(
        SpecValue::Hash(entries_view(xs@)),
        SpecValue::Hash(entries_view(ys@)),
    ));
    let mut k: usize = 0;
    while k < work.len()
        invariant
            k <= work@.len(),
            all_equal(work@) == value_eq(SpecValue::Hash(entries_view(xs@)), SpecValue::Hash(entries_view(ys@))),
            forall|j: int| 0 <= j < k ==> value_eq((#[trigger] work@[j]).0.deep(), work@[j].1.deep()),
        decreases work.len() - k,
    {
        let (a, b) = work[k];
        if !values_equal(a, b) {
            assert(!all_equal(work@));
            return false;
        }
        k = k + 1;
    }
    assert(all_equal(work@));
    true
}

impl PartialEq for Function {
    fn eq(&self, other: &Function) -> (r: bool) {
        crate::ast::str_eq(self.name.as_str(), other.name.as_str()) && maps_equal(
            &self.parameters,
            &other.parameters,
        )
    }
}

impl vstd::std_specs::cmp::PartialEqSpecImpl for Function {
    open spec fn obeys_eq_spec() -> bool {
        true
    }

    open spec fn eq_spec(&self, other: &Function) -> bool {
        value_eq(
            SpecValue::Function(self.name@, entries_view(self.parameters@)),
            SpecValue::Function(other.name@, entries_view(other.parameters@)),
        )
    }
}

impl PartialEq for Value {
    fn eq(&self, other: &Value) -> (r: bool) {
        values_equal(self, other)
    }
}

impl vstd::std_specs::cmp::PartialEqSpecImpl for Value {
    open spec fn obeys_eq_spec() -> bool {
        true
    }

    open spec fn eq_spec(&self, other: &Value) -> bool {
        value_eq(self.deep(), other.deep())
    }
}

/// A copy of a value.
pub fn clone_value(v: &Value) -> (r: Value)
    ensures
        r.deep() == v.deep(),
    decreases v,
{
    match v {
        Value::Null => Value::Null,
        Value::Boolean(b) => Value::Boolean(*b),
        Value::String(t) => Value::String(t.clone()),
        Value::Number(n) => Value::Number(n.clone()),
        Value::Array(items) => {
            let mut out: Vec<Value> = Vec::new();
            let mut i: usize = 0;
            while i < items.len()
                invariant
                    i <= items@.len(),
                    *v == Value::Array(*items),
                    values_view(out@) == values_view(items@.take(i as int)),
                decreases items.len() - i,
            {
                proof {
                    assert(*items == (*v)->Array_0);
                    assert(decreases_to!(*v => (*v)->Array_0));
                    assert(decreases_to!(*items => items@));
                    assert(decreases_to!(items@ => items@[i as int]));
                }
                let c = clone_value(&items[i]);
                proof {
                    assert(items@.take(i + 1).drop_last() =~= items@.take(i as int));
                    assert(out@.push(c).drop_last() =~= out@);
                }
                out.push(c);
                i = i + 1;
            }
            assert(items@.take(i as int) =~= items@);
            Value::Array(out)
        },
        Value::Hash(map) => Value::Hash(clone_entries(map)),
        Value::Function(f) => Value::Function(Function::new(f.name.clone(), clone_entries(&f.parameters))),
        Value::Variable(var) => {
            let mut path: Vec<PathSegment> = Vec::new();
            let mut i: usize = 0;
            while i < var.path.len()
                invariant
                    i <= var.path@.len(),
                    path@.len() == i,
                    path_view(path@) == path_view(var.path@.take(i as int)),
                decreases var.path.len() - i,
            {
                let seg = match &var.path[i] {
                    PathSegment::Key(k) => PathSegment::Key(k.clone()),
                    PathSegment::Index(n) => PathSegment::Index(n.clone()),
                };
                let ghost prior = path@;
                path.push(seg);
                assert(segment_view(path@[i as int]) == segment_view(var.path@[i as int]));
                assert forall|j: int| 0 <= j < i implies segment_view(#[trigger] path@[j]) == segment_view(var.path@[j]) by {
                    assert(path@[j] == prior[j]);
                    assert(path_view(prior)[j] == path_view(var.path@.take(i as int))[j]);
                }
                i = i + 1;
                assert(path_view(path@) =~= path_view(var.path@.take(i as int)));
            }
            assert(var.path@.take(i as int) =~= var.path@);
            Value::Variable(Variable::new(path))
        },
    }
}

/// A copy of keyed values, in the same order.
pub fn clone_entries(map: &IndexMap<Value>) -> (r: IndexMap<Value>)
    ensures
        entries_view(r@) == entries_view(map@),
    decreases map,
{
    let entries = map.entries();
    let mut out: Vec<(String, Value)> = Vec::new();
    let mut i: usize = 0;
    while i < entries.len()
        invariant
            i <= entries@.len(),
            entries@ == map@,
            entries_view(out@) == entries_view(entries@.take(i as int)),
        decreases entries.len() - i,
    {
        let c = clone_value(&entries[i].1);
        let k = entries[i].0.clone();
        proof {
            assert(entries@.take(i + 1).drop_last() =~= entries@.take(i as int));
            assert(out@.push((k, c)).drop_last() =~= out@);
        }
        out.push((k, c));
        i = i + 1;
    }
    assert(entries@.take(i as int) =~= entries@);
    IndexMap { entries: out }
}

impl Clone for Value {
    fn clone(&self) -> (r: Value)
        ensures
            r.deep() == self.deep(),
    {
        clone_value(self)
    }
}

} // verus!
