//! When two trees are equal.
//!
//! Attributes and slots are maps, so they compare regardless of order; the
//! children compare in order. The comparison walks a work list rather than
//! recursing, so a deep tree cannot exhaust the call stack.

use vstd::prelude::*;

use crate::ast::{
    Location, Node, SpecValue, Slots, ValidationError, Value, children_size, entries_view, key_index,
    lemma_key_index, maps_equal, node_size, slots_size, str_eq, value_eq, values_equal,
};
use crate::grammar::{Attribute, SpecAttribute};

verus! {

/// When two document labels are equal.
pub open spec fn file_same(a: Option<&str>, b: Option<&str>) -> bool {
    match a {
        None => b is None,
        Some(x) => b matches Some(y) && x@ == y@,
    }
}

/// When two locations are equal: the same label, edges and text.
pub open spec fn location_same<'a>(a: Option<Location<'a>>, b: Option<Location<'a>>) -> bool {
    match a {
        None => b is None,
        Some(x) => b matches Some(y) && file_same(x.file, y.file) && x.start == y.start && x.end == y.end
            && x.text@ == y.text@,
    }
}

/// When two errors are equal, field by field.
pub open spec fn error_same<'a>(a: ValidationError<'a>, b: ValidationError<'a>) -> bool {
    &&& a.id@ == b.id@
    &&& a.level == b.level
    &&& a.message@ == b.message@
    &&& location_same(a.location, b.location)
}

/// When two lists of errors are equal, in order.
pub open spec fn errors_same<'a>(a: Seq<ValidationError<'a>>, b: Seq<ValidationError<'a>>) -> bool {
    a.len() == b.len() && forall|i: int| 0 <= i < a.len() ==> error_same(#[trigger] a[i], b[i])
}

/// When two annotations are equal: the same name and an equal value, or the
/// same class.
pub open spec fn attribute_same(a: Attribute, b: Attribute) -> bool {
    match a.deep() {
        SpecAttribute::Attribute(n, v) => b.deep() matches SpecAttribute::Attribute(m, w) && n == m
            && value_eq(v, w),
        SpecAttribute::Class(n) => b.deep() matches SpecAttribute::Class(m) && n == m,
    }
}

/// When two lists of annotations are equal, in order.
pub open spec fn annotations_same(a: Seq<Attribute>, b: Seq<Attribute>) -> bool {
    a.len() == b.len() && forall|i: int| 0 <= i < a.len() ==> attribute_same(#[trigger] a[i], b[i])
}

/// When two tag names are equal.
pub open spec fn tag_same(a: Option<String>, b: Option<String>) -> bool {
    match a {
        None => b is None,
        Some(x) => b matches Some(y) && x@ == y@,
    }
}

/// When the fields of two nodes that hold no nodes are equal.
pub open spec fn flat_same<'a>(a: Node<'a>, b: Node<'a>) -> bool {
    &&& a.node_type == b.node_type
    &&& tag_same(a.tag, b.tag)
    &&& value_eq(SpecValue::Hash(entries_view(a.attributes@)), SpecValue::Hash(entries_view(b.attributes@)))
    &&& errors_same(a.errors@, b.errors@)
    &&& a.lines@ == b.lines@
    &&& annotations_same(a.annotations@, b.annotations@)
    &&& a.inline == b.inline
    &&& location_same(a.location, b.location)
}

/// When two trees are equal: their own fields are, their children are in
/// order, and their slots are as a map, in any order.
pub open spec fn node_eq<'a>(a: Node<'a>, b: Node<'a>) -> bool
    decreases a,
{
    &&& flat_same(a, b)
    &&& a.children@.len() == b.children@.len()
    &&& forall|i: int| 0 <= i < a.children@.len() ==> node_eq(#[trigger] a.children@[i], b.children@[i])
    &&& a.slots.entries@.len() == b.slots.entries@.len()
    &&& forall|i: int|
        0 <= i < a.slots.entries@.len() ==> key_index(b.slots.entries@, (#[trigger] a.slots.entries@[i]).0@)
            >= 0 && node_eq(
            a.slots.entries@[i].1,
            b.slots.entries@[key_index(b.slots.entries@, a.slots.entries@[i].0@)].1,
        )
}

fn file_equal(a: Option<&str>, b: Option<&str>) -> (r: bool)
    ensures
        r == file_same(a, b),
{
    match (a, b) {
        (None, None) => true,
        (Some(x), Some(y)) => str_eq(x, y),
        _ => false,
    }
}

fn location_equal<'a>(a: &Option<Location<'a>>, b: &Option<Location<'a>>) -> (r: bool)
    ensures
        r == location_same(*a, *b),
{
    match (a, b) {
        (None, None) => true,
        (Some(x), Some(y)) => file_equal(x.file, y.file) && x.start == y.start && x.end == y.end && str_eq(
            x.text,
            y.text,
        ),
        _ => false,
    }
}

fn errors_equal<'a>(a: &Vec<ValidationError<'a>>, b: &Vec<ValidationError<'a>>) -> (r: bool)
    ensures
        r == errors_same(a@, b@),
{
    if a.len() != b.len() {
        return false;
    }
    let mut i: usize = 0;
    while i < a.len()
        invariant
            i <= a@.len(),
            a@.len() == b@.len(),
            forall|k: int| 0 <= k < i ==> error_same(#[trigger] a@[k], b@[k]),
        decreases a.len() - i,
    {
        let x = &a[i];
        let y = &b[i];
        let same = str_eq(x.id, y.id) && x.level == y.level && str_eq(x.message.as_str(), y.message.as_str())
            && location_equal(&x.location, &y.location);
        if !same {
            assert(!error_same(a@[i as int], b@[i as int]));
            return false;
        }
        i = i + 1;
    }
    true
}

fn attribute_equal(a: &Attribute, b: &Attribute) -> (r: bool)
    ensures
        r == attribute_same(*a, *b),
{
    match (a, b) {
        (Attribute::Attribute { name: n, value: v }, Attribute::Attribute { name: m, value: w }) => str_eq(
            n.as_str(),
            m.as_str(),
        ) && values_equal(v, w),
        (Attribute::Class { name: n }, Attribute::Class { name: m }) => str_eq(n.as_str(), m.as_str()),
        _ => false,
    }
}

fn annotations_equal(a: &Vec<Attribute>, b: &Vec<Attribute>) -> (r: bool)
    ensures
        r == annotations_same(a@, b@),
{
    if a.len() != b.len() {
        return false;
    }
    let mut i: usize = 0;
    while i < a.len()
        invariant
            i <= a@.len(),
            a@.len() == b@.len(),
            forall|k: int| 0 <= k < i ==> attribute_same(#[trigger] a@[k], b@[k]),
        decreases a.len() - i,
    {
        if !attribute_equal(&a[i], &b[i]) {
            return false;
        }
        i = i + 1;
    }
    true
}

fn lines_equal(a: &Vec<usize>, b: &Vec<usize>) -> (r: bool)
    ensures
        r == (a@ == b@),
{
    if a.len() != b.len() {
        return false;
    }
    let mut i: usize = 0;
    while i < a.len()
        invariant
            i <= a@.len(),
            a@.len() == b@.len(),
            forall|k: int| 0 <= k < i ==> a@[k] == b@[k],
        decreases a.len() - i,
    {
        if a[i] != b[i] {
            return false;
        }
        i = i + 1;
    }
    assert(a@ =~= b@);
    true
}

fn tag_equal(a: &Option<String>, b: &Option<String>) -> (r: bool)
    ensures
        r == tag_same(*a, *b),
{
    match (a, b) {
        (None, None) => true,
        (Some(x), Some(y)) => str_eq(x.as_str(), y.as_str()),
        _ => false,
    }
}

/// Whether the fields of two nodes that hold no nodes are equal.
fn flat_equal<'a>(a: &Node<'a>, b: &Node<'a>) -> (r: bool)
    ensures
        r == flat_same(*a, *b),
{
    a.node_type == b.node_type && tag_equal(&a.tag, &b.tag) && maps_equal(&a.attributes, &b.attributes)
        && errors_equal(&a.errors, &b.errors) && lines_equal(&a.lines, &b.lines) && annotations_equal(
        &a.annotations,
        &b.annotations,
    ) && a.inline == b.inline && location_equal(&a.location, &b.location)
}

/// Every pair on a work list is equal.
pub open spec fn all_same<'n, 'a>(work: Seq<(&'n Node<'a>, &'n Node<'a>)>) -> bool {
    forall|k: int| 0 <= k < work.len() ==> node_eq(*(#[trigger] work[k]).0, *work[k].1)
}

/// The nodes left to compare on a work list, counted on the left.
pub open spec fn pending_size<'n, 'a>(work: Seq<(&'n Node<'a>, &'n Node<'a>)>) -> nat
    decreases work.len(),
{
    if work.len() == 0 {
        0
    } else {
        pending_size(work.drop_last()) + node_size(*work.last().0)
    }
}

/// Queue each child of `l` with the child of `r` at the same place.
fn push_children<'n, 'a>(work: &mut Vec<(&'n Node<'a>, &'n Node<'a>)>, l: &'n Node<'a>, r: &'n Node<'a>)
    requires
        l.children@.len() == r.children@.len(),
    ensures
        all_same(final(work)@) == (all_same(old(work)@) && forall|i: int|
            0 <= i < l.children@.len() ==> node_eq(#[trigger] l.children@[i], r.children@[i])),
        pending_size(final(work)@) == pending_size(old(work)@) + children_size(l.children@),
{
    let ghost base = work@;
    let ghost lc = l.children@;
    assert(lc.skip(0) =~= lc);
    let mut j: usize = 0;
    while j < l.children.len()
        invariant
            j <= lc.len(),
            lc == l.children@,
            lc.len() == r.children@.len(),
            work@.len() == base.len() + j,
            forall|k: int| 0 <= k < base.len() ==> work@[k] == base[k],
            forall|k: int|
                0 <= k < j ==> #[trigger] work@[base.len() + k] == (&l.children@[k], &r.children@[k]),
            pending_size(work@) + children_size(lc.skip(j as int)) == pending_size(base) + children_size(lc),
        decreases lc.len() - j,
    {
        let ghost w0 = work@;
        proof {
            assert(lc.skip(j as int).drop_first() =~= lc.skip(j + 1));
            assert(lc.skip(j as int)[0] == lc[j as int]);
        }
        work.push((&l.children[j], &r.children[j]));
        proof {
            assert(work@.drop_last() =~= w0);
        }
        j = j + 1;
    }
    proof {
        assert(lc.skip(j as int) =~= Seq::<Node<'a>>::empty());
        assert(all_same(work@) == (all_same(base) && forall|i: int|
            0 <= i < lc.len() ==> node_eq(#[trigger] lc[i], r.children@[i]))) by {
            if all_same(work@) {
                assert forall|k: int| 0 <= k < base.len() implies node_eq(*(#[trigger] base[k]).0, *base[k].1) by {
                    assert(work@[k] == base[k]);
                }
                assert forall|i: int| 0 <= i < lc.len() implies node_eq(#[trigger] lc[i], r.children@[i]) by {
                    assert(work@[base.len() + i] == (&l.children@[i], &r.children@[i]));
                }
            }
            if all_same(base) && forall|i: int| 0 <= i < lc.len() ==> node_eq(#[trigger] lc[i], r.children@[i]) {
                assert forall|k: int| 0 <= k < work@.len() implies node_eq(*(#[trigger] work@[k]).0, *work@[k].1) by {
                    if k < base.len() {
                        assert(work@[k] == base[k]);
                    } else {
                        assert(work@[base.len() + (k - base.len())] == (
                            &l.children@[k - base.len()],
                            &r.children@[k - base.len()],
                        ));
                    }
                }
            }
        }
    }
}

/// Queue each slot of `l` with the slot of `r` of the same name; false when
/// `r` has no slot of that name.
fn push_slots<'n, 'a>(work: &mut Vec<(&'n Node<'a>, &'n Node<'a>)>, l: &'n Node<'a>, r: &'n Node<'a>) -> (found: bool)
    ensures
        !found ==> exists|i: int|
            0 <= i < l.slots.entries@.len() && key_index(r.slots.entries@, (#[trigger] l.slots.entries@[i]).0@) < 0,
        found ==> forall|i: int|
            0 <= i < l.slots.entries@.len() ==> key_index(r.slots.entries@, (#[trigger] l.slots.entries@[i]).0@) >= 0,
        found ==> all_same(final(work)@) == (all_same(old(work)@) && forall|i: int|
            0 <= i < l.slots.entries@.len() ==> node_eq(
                (#[trigger] l.slots.entries@[i]).1,
                r.slots.entries@[key_index(r.slots.entries@, l.slots.entries@[i].0@)].1,
            )),
        found ==> pending_size(final(work)@) == pending_size(old(work)@) + slots_size(l.slots.entries@),
{
    let ghost base = work@;
    let ghost ls = l.slots.entries@;
    let ghost rs = r.slots.entries@;
    assert(ls.skip(0) =~= ls);
    let mut j: usize = 0;
    while j < l.slots.entries.len()
        invariant
            j <= ls.len(),
            ls == l.slots.entries@,
            rs == r.slots.entries@,
            work@.len() == base.len() + j,
            forall|k: int| 0 <= k < base.len() ==> work@[k] == base[k],
            forall|k: int|
                0 <= k < j ==> key_index(rs, (#[trigger] ls[k]).0@) >= 0 && key_index(rs, ls[k].0@) < rs.len()
                    && work@[base.len() + k] == (&ls[k].1, &rs[key_index(rs, ls[k].0@)].1),
            pending_size(work@) + slots_size(ls.skip(j as int)) == pending_size(base) + slots_size(ls),
        decreases ls.len() - j,
    {
        let ghost w0 = work@;
        let (name, node) = &l.slots.entries[j];
        proof {
            lemma_key_index(rs, name@);
            assert(ls.skip(j as int).drop_first() =~= ls.skip(j + 1));
            assert(ls.skip(j as int)[0] == ls[j as int]);
        }
        match r.slots.get(name.as_str()) {
            None => {
                assert(key_index(rs, ls[j as int].0@) < 0);
                return false;
            },
            Some(other) => {
                work.push((node, other));
                proof {
                    assert(work@.drop_last() =~= w0);
                }
            },
        }
        j = j + 1;
    }
    proof {
        assert(ls.skip(j as int) =~= Seq::<(String, Node<'a>)>::empty());
        let goal = forall|i: int|
            0 <= i < ls.len() ==> node_eq((#[trigger] ls[i]).1, rs[key_index(rs, ls[i].0@)].1);
        assert(all_same(work@) == (all_same(base) && goal)) by {
            if all_same(work@) {
                assert forall|k: int| 0 <= k < base.len() implies node_eq(*(#[trigger] base[k]).0, *base[k].1) by {
                    assert(work@[k] == base[k]);
                }
                assert forall|i: int| 0 <= i < ls.len() implies node_eq(
                    (#[trigger] ls[i]).1,
                    rs[key_index(rs, ls[i].0@)].1,
                ) by {
                    assert(work@[base.len() + i] == (&ls[i].1, &rs[key_index(rs, ls[i].0@)].1));
                }
            }
            if all_same(base) && goal {
                assert forall|k: int| 0 <= k < work@.len() implies node_eq(*(#[trigger] work@[k]).0, *work@[k].1) by {
                    if k < base.len() {
                        assert(work@[k] == base[k]);
                    } else {
                        let i = k - base.len();
                        assert(key_index(rs, ls[i].0@) >= 0);
                        assert(work@[base.len() + i] == (&ls[i].1, &rs[key_index(rs, ls[i].0@)].1));
                    }
                }
            }
        }
    }
    true
}

/// Whether two trees are equal, by a work list rather than by recursion.
pub fn nodes_equal<'a>(a: &Node<'a>, b: &Node<'a>) -> (r: bool)
    ensures
        r == node_eq(*a, *b),
{
    let mut work: Vec<(&Node<'a>, &Node<'a>)> = Vec::new();
    work.push((a, b));
    assert(all_same(work@) == node_eq(*a, *b)) by {
        assert(work@[0] == (a, b));
    }
    loop
        invariant
            all_same(work@) == node_eq(*a, *b),
        decreases pending_size(work@),
    {
        let ghost before = work@;
        match work.pop() {
            None => {
                return true;
            },
            Some((l, r)) => {
                proof {
                    assert(before.drop_last() =~= work@);
                    assert(before.last() == (l, r));
                    assert(all_same(before) == (all_same(work@) && node_eq(*l, *r))) by {
                        if all_same(work@) && node_eq(*l, *r) {
                            assert forall|k: int| 0 <= k < before.len() implies node_eq(
                                *(#[trigger] before[k]).0,
                                *before[k].1,
                            ) by {
                                if k < before.len() - 1 {
                                    assert(before[k] == work@[k]);
                                }
                            }
                        }
                        if all_same(before) {
                            assert(node_eq(*before[before.len() - 1].0, *before[before.len() - 1].1));
                            assert forall|k: int| 0 <= k < work@.len() implies node_eq(
                                *(#[trigger] work@[k]).0,
                                *work@[k].1,
                            ) by {
                                assert(before[k] == work@[k]);
                            }
                        }
                    }
                }
                if !flat_equal(l, r) {
                    return false;
                }
                if l.children.len() != r.children.len() || l.slots.entries.len() != r.slots.entries.len() {
                    return false;
                }
                let ghost rest = work@;
                push_children(&mut work, l, r);
                if !push_slots(&mut work, l, r) {
                    return false;
                }
                assert(node_size(*l) == 1 + slots_size(l.slots.entries@) + children_size(l.children@));
            },
        }
    }
}

/// Whether two sets of slots are equal: the same names, each with an equal
/// node, in any order.
pub open spec fn slots_same<'a>(a: Seq<(String, Node<'a>)>, b: Seq<(String, Node<'a>)>) -> bool {
    a.len() == b.len() && forall|i: int|
        0 <= i < a.len() ==> key_index(b, (#[trigger] a[i]).0@) >= 0 && node_eq(a[i].1, b[key_index(b, a[i].0@)].1)
}

/// Whether two sets of slots are equal.
pub fn slots_equal<'a>(a: &Slots<'a>, b: &Slots<'a>) -> (r: bool)
    ensures
        r == slots_same(a@, b@),
{
    if a.entries.len() != b.entries.len() {
        return false;
    }
    let mut i: usize = 0;
    while i < a.entries.len()
        invariant
            i <= a@.len(),
            a@.len() == b@.len(),
            forall|k: int|
                0 <= k < i ==> key_index(b@, (#[trigger] a@[k]).0@) >= 0 && node_eq(a@[k].1, b@[key_index(b@, a@[k].0@)].1),
        decreases a@.len() - i,
    {
        let (name, node) = &a.entries[i];
        proof {
            lemma_key_index(b@, name@);
        }
        match b.get(name.as_str()) {
            None => {
                return false;
            },
            Some(other) => {
                if !nodes_equal(node, other) {
                    return false;
                }
            },
        }
        i = i + 1;
    }
    true
}

impl<'a> PartialEq for Node<'a> {
    fn eq(&self, other: &Node<'a>) -> (r: bool) {
        nodes_equal(self, other)
    }
}

impl<'a> vstd::std_specs::cmp::PartialEqSpecImpl for Node<'a> {
    open spec fn obeys_eq_spec() -> bool {
        true
    }

    open spec fn eq_spec(&self, other: &Node<'a>) -> bool {
        node_eq(*self, *other)
    }
}

impl<'a> PartialEq for Slots<'a> {
    fn eq(&self, other: &Slots<'a>) -> (r: bool) {
        slots_equal(self, other)
    }
}

impl<'a> vstd::std_specs::cmp::PartialEqSpecImpl for Slots<'a> {
    open spec fn obeys_eq_spec() -> bool {
        true
    }

    open spec fn eq_spec(&self, other: &Slots<'a>) -> bool {
        slots_same(self@, other@)
    }
}

} // verus!
