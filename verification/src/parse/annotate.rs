//! Applying annotations to a node.
//!
//! Three callers need this -- an inline annotation, a tag's own attributes,
//! and a fence's info string -- and it is where two rules live:
//!
//! - **A repeated attribute is a warning, not an error.** The later value
//!   wins and the document still renders; the `duplicate-attribute` warning
//!   records it.
//! - **Classes accumulate; attributes replace.** `.foo .bar` is two
//!   annotations and one `class` hash with two entries.
//!
//! The annotations are also kept verbatim on the node, so that the formatter
//! reprints what was written.

use vstd::prelude::*;

use crate::ast::{
    IndexMap, Node, SpecValue, ValidationError, Value, clone_entries, clone_value, entries_view,
    lemma_key_index,
};
use crate::grammar::peg::{spec_insert, spec_key_index};
use crate::grammar::{Attribute, SpecAttribute, attributes_view, lemma_insert_view, lemma_key_index_view};

verus! {

/// The name `class`.
pub open spec fn class_key() -> Seq<char> {
    seq!['c', 'l', 'a', 's', 's']
}

/// What one annotation does to a node's attributes: a named value replaces,
/// a class joins the `class` hash (starting one when there is none).
pub open spec fn annotate_one(
    entries: Seq<(Seq<char>, SpecValue)>,
    a: SpecAttribute,
) -> Seq<(Seq<char>, SpecValue)> {
    match a {
        SpecAttribute::Attribute(name, value) => spec_insert(entries, name, value),
        SpecAttribute::Class(name) => {
            let ci = spec_key_index(entries, class_key());
            let base = if ci >= 0 && entries[ci].1 is Hash {
                entries[ci].1->Hash_0
            } else {
                Seq::empty()
            };
            spec_insert(
                entries,
                class_key(),
                SpecValue::Hash(spec_insert(base, name, SpecValue::Boolean(true))),
            )
        },
    }
}

/// What annotations do to a node's attributes, in authored order.
pub open spec fn annotate_all(
    entries: Seq<(Seq<char>, SpecValue)>,
    attrs: Seq<SpecAttribute>,
) -> Seq<(Seq<char>, SpecValue)>
    decreases attrs.len(),
{
    if attrs.len() == 0 {
        entries
    } else {
        annotate_one(annotate_all(entries, attrs.drop_last()), attrs.last())
    }
}

/// The `class` hash among `entries`, when there is one.
pub open spec fn class_hash(entries: Seq<(Seq<char>, SpecValue)>) -> Option<Seq<(Seq<char>, SpecValue)>> {
    let ci = spec_key_index(entries, class_key());
    if ci >= 0 && entries[ci].1 is Hash {
        Some(entries[ci].1->Hash_0)
    } else {
        None
    }
}

/// Whether `key` is set among `entries`.
pub open spec fn has_key(entries: Seq<(Seq<char>, SpecValue)>, key: Seq<char>) -> bool {
    spec_key_index(entries, key) >= 0
}

/// Whether `key` is set to `true` among `entries`.
pub open spec fn set_true(entries: Seq<(Seq<char>, SpecValue)>, key: Seq<char>) -> bool {
    has_key(entries, key) && entries[spec_key_index(entries, key)].1 == SpecValue::Boolean(true)
}

/// Whether `k` is a class in the `class` hash among `entries`.
pub open spec fn in_class(entries: Seq<(Seq<char>, SpecValue)>, k: Seq<char>) -> bool {
    class_hash(entries) matches Some(h) && has_key(h, k)
}

/// Whether `k` is a class set to `true` in the `class` hash among `entries`.
pub open spec fn class_set(entries: Seq<(Seq<char>, SpecValue)>, k: Seq<char>) -> bool {
    class_hash(entries) matches Some(h) && set_true(h, k)
}

/// Setting one key leaves every other key where it was, with its value.
proof fn lemma_insert_other(entries: Seq<(Seq<char>, SpecValue)>, key: Seq<char>, value: SpecValue, k: Seq<char>)
    requires
        k != key,
    ensures
        spec_key_index(spec_insert(entries, key, value), k) == spec_key_index(entries, k),
        spec_key_index(entries, k) >= 0 ==> spec_insert(entries, key, value)[spec_key_index(entries, k)]
            == entries[spec_key_index(entries, k)],
{
    crate::grammar::peg::lemma_insert_reads_back(entries, key, value);
    crate::grammar::peg::lemma_spec_key_index(entries, k);
    crate::grammar::peg::lemma_spec_key_index(entries, key);
    let after = spec_insert(entries, key, value);
    let i = spec_key_index(after, key);
    let kk = spec_key_index(entries, k);
    crate::grammar::peg::lemma_spec_key_index(after, k);
    if kk >= 0 {
        assert(kk != i);
        assert(after[kk] == entries[kk]);
        assert forall|j: int| kk < j < after.len() implies #[trigger] after[j].0 != k by {
            if j != i {
                assert(after[j] == entries[j]);
            }
        }
        crate::grammar::peg::lemma_spec_key_index_after(after, k, kk);
    } else {
        if spec_key_index(after, k) >= 0 {
            let j = spec_key_index(after, k);
            assert(after[j].0 == k);
            if j != i {
                assert(after[j] == entries[j]);
            }
            assert(false);
        }
    }
}

/// After setting `key`, it reads back, and every key set before is still set.
proof fn lemma_insert_keeps(entries: Seq<(Seq<char>, SpecValue)>, key: Seq<char>, value: SpecValue)
    ensures
        spec_key_index(spec_insert(entries, key, value), key) >= 0,
        spec_insert(entries, key, value)[spec_key_index(spec_insert(entries, key, value), key)] == (key, value),
        forall|k: Seq<char>| #[trigger] has_key(entries, k) ==> has_key(spec_insert(entries, key, value), k),
        forall|k: Seq<char>|
            k != key && #[trigger] set_true(entries, k) ==> set_true(spec_insert(entries, key, value), k),
{
    crate::grammar::peg::lemma_insert_reads_back(entries, key, value);
    assert forall|k: Seq<char>| #[trigger] has_key(entries, k) implies has_key(spec_insert(entries, key, value), k) by {
        if k != key {
            lemma_insert_other(entries, key, value, k);
        }
    }
    assert forall|k: Seq<char>|
        k != key && #[trigger] set_true(entries, k) implies set_true(spec_insert(entries, key, value), k) by {
        lemma_insert_other(entries, key, value, k);
    }
}

/// Classes accumulate into one `class` hash: after annotating, with no
/// named `class` attribute among the annotations, every class annotated is
/// in the hash and set to `true`, and every class the node had is kept.
pub proof fn law_classes_accumulate(entries: Seq<(Seq<char>, SpecValue)>, attrs: Seq<SpecAttribute>)
    requires
        forall|i: int| 0 <= i < attrs.len() ==> !(#[trigger] attrs[i] matches SpecAttribute::Attribute(n, _)
            && n == class_key()),
    ensures
        forall|i: int|
            0 <= i < attrs.len() ==> (#[trigger] attrs[i] matches SpecAttribute::Class(name) ==> class_set(
                annotate_all(entries, attrs),
                name,
            )),
        forall|k: Seq<char>| #[trigger] in_class(entries, k) ==> in_class(annotate_all(entries, attrs), k),
    decreases attrs.len(),
{
    if attrs.len() > 0 {
        let rest = attrs.drop_last();
        assert forall|i: int| 0 <= i < rest.len() implies !(#[trigger] rest[i] matches SpecAttribute::Attribute(n, _)
            && n == class_key()) by {
            assert(rest[i] == attrs[i]);
        }
        law_classes_accumulate(entries, rest);
        let r = annotate_all(entries, rest);
        let a = attrs.last();
        let r2 = annotate_all(entries, attrs);
        assert(r2 == annotate_one(r, a));
        match a {
            SpecAttribute::Attribute(name, value) => {
                assert(!(attrs[attrs.len() - 1] matches SpecAttribute::Attribute(n, _) && n == class_key()));
                lemma_insert_other(r, name, value, class_key());
                assert(class_hash(r2) == class_hash(r));
                assert forall|i: int|
                    0 <= i < attrs.len() implies (#[trigger] attrs[i] matches SpecAttribute::Class(nm)
                    ==> class_set(r2, nm)) by {
                    if i < attrs.len() - 1 {
                        assert(attrs[i] == rest[i]);
                    }
                }
                assert forall|k: Seq<char>| #[trigger] in_class(entries, k) implies in_class(r2, k) by {
                    assert(in_class(r, k));
                }
            },
            SpecAttribute::Class(name) => {
                let base = match class_hash(r) {
                    Some(h) => h,
                    None => Seq::empty(),
                };
                let h2 = spec_insert(base, name, SpecValue::Boolean(true));
                assert(r2 == spec_insert(r, class_key(), SpecValue::Hash(h2)));
                crate::grammar::peg::lemma_insert_reads_back(r, class_key(), SpecValue::Hash(h2));
                assert(class_hash(r2) == Some(h2));
                lemma_insert_keeps(base, name, SpecValue::Boolean(true));
                assert(set_true(h2, name));
                assert forall|i: int|
                    0 <= i < attrs.len() implies (#[trigger] attrs[i] matches SpecAttribute::Class(nm)
                    ==> class_set(r2, nm)) by {
                    if i < attrs.len() - 1 {
                        assert(attrs[i] == rest[i]);
                        if let SpecAttribute::Class(nm) = attrs[i] {
                            assert(class_set(r, nm));
                            if nm != name {
                                assert(set_true(base, nm));
                            }
                        }
                    }
                }
                assert forall|k: Seq<char>| #[trigger] in_class(entries, k) implies in_class(r2, k) by {
                    assert(in_class(r, k));
                    assert(has_key(base, k));
                }
            },
        }
    }
}

/// How many annotations set a named value that was already set: one
/// `duplicate-attribute` warning each.
pub open spec fn duplicates(
    entries: Seq<(Seq<char>, SpecValue)>,
    attrs: Seq<SpecAttribute>,
) -> nat
    decreases attrs.len(),
{
    if attrs.len() == 0 {
        0
    } else {
        duplicates(entries, attrs.drop_last()) + match attrs.last() {
            SpecAttribute::Attribute(name, _) => if spec_key_index(
                annotate_all(entries, attrs.drop_last()),
                name,
            ) >= 0 {
                1nat
            } else {
                0nat
            },
            SpecAttribute::Class(_) => 0nat,
        }
    }
}

/// A copy of an annotation.
pub fn clone_attribute(a: &Attribute) -> (r: Attribute)
    ensures
        r.deep() == a.deep(),
{
    match a {
        Attribute::Attribute { name, value } => Attribute::Attribute {
            name: name.clone(),
            value: clone_value(value),
        },
        Attribute::Class { name } => Attribute::Class { name: name.clone() },
    }
}

/// Apply annotations to a node, in authored order.
pub fn annotate<'a>(node: &mut Node<'a>, attributes: &Vec<Attribute>)
    ensures
        entries_view(final(node).attributes@) == annotate_all(
            entries_view(old(node).attributes@),
            attributes_view(attributes@),
        ),
        attributes_view(final(node).annotations@) == attributes_view(old(node).annotations@)
            + attributes_view(attributes@),
        final(node).errors@.len() == old(node).errors@.len() + duplicates(
            entries_view(old(node).attributes@),
            attributes_view(attributes@),
        ),
        forall|k: int|
            old(node).errors@.len() <= k < final(node).errors@.len()
                ==> (#[trigger] final(node).errors@[k]).id@ == "duplicate-attribute"@,
        forall|k: int|
            0 <= k < old(node).errors@.len()
                ==> #[trigger] final(node).errors@[k] == old(node).errors@[k],
        final(node).node_type == old(node).node_type,
        final(node).tag == old(node).tag,
        final(node).children == old(node).children,
        final(node).slots == old(node).slots,
        final(node).lines == old(node).lines,
        final(node).inline == old(node).inline,
        final(node).location == old(node).location,
{
    let ghost e0 = entries_view(node.attributes@);
    let ghost av = attributes_view(attributes@);
    let ghost ann0 = attributes_view(node.annotations@);
    let ghost err0 = node.errors@;
    let mut i: usize = 0;
    while i < attributes.len()
        invariant
            i <= attributes@.len(),
            av == attributes_view(attributes@),
            entries_view(node.attributes@) == annotate_all(e0, av.take(i as int)),
            attributes_view(node.annotations@) == ann0 + av.take(i as int),
            node.errors@.len() == err0.len() + duplicates(e0, av.take(i as int)),
            forall|k: int|
                err0.len() <= k < node.errors@.len() ==> (#[trigger] node.errors@[k]).id@
                    == "duplicate-attribute"@,
            forall|k: int| 0 <= k < err0.len() ==> #[trigger] node.errors@[k] == err0[k],
            node.node_type == old(node).node_type,
            node.tag == old(node).tag,
            node.children == old(node).children,
            node.slots == old(node).slots,
            node.lines == old(node).lines,
            node.inline == old(node).inline,
            node.location == old(node).location,
        decreases attributes.len() - i,
    {
        proof {
            assert(av.take(i + 1).drop_last() =~= av.take(i as int));
            assert(av.take(i + 1).last() == attributes@[i as int].deep());
            reveal_strlit("class");
            assert("class"@ =~= class_key());
        }
        let ghost ann_before = node.annotations@;
        node.annotations.push(clone_attribute(&attributes[i]));
        assert(attributes_view(node.annotations@) =~= ann0 + av.take(i + 1)) by {
            assert(attributes_view(node.annotations@) =~= attributes_view(ann_before).push(
                attributes@[i as int].deep(),
            ));
        }
        let ghost before = entries_view(node.attributes@);
        let ghost err_before = node.errors@;
        match &attributes[i] {
            Attribute::Attribute { name, value } => {
                proof {
                    lemma_key_index(node.attributes@, name@);
                    lemma_key_index_view(node.attributes@, name@);
                }
                if node.attributes.contains_key(name.as_str()) {
                    node.errors.push(ValidationError::duplicate_attribute(name.as_str()));
                }
                node.set(name.as_str(), clone_value(value));
            },
            Attribute::Class { name } => {
                proof {
                    lemma_key_index(node.attributes@, "class"@);
                    lemma_key_index_view(node.attributes@, "class"@);
                    crate::grammar::lemma_entries_view(node.attributes@);
                }
                let mut classes: IndexMap<Value> = match node.get("class") {
                    Some(Value::Hash(existing)) => clone_entries(existing),
                    _ => IndexMap::new(),
                };
                let ghost base = entries_view(classes@);
                assert(base == {
                    let ci = spec_key_index(before, class_key());
                    if ci >= 0 && before[ci].1 is Hash {
                        before[ci].1->Hash_0
                    } else {
                        Seq::<(Seq<char>, SpecValue)>::empty()
                    }
                });
                let ghost prior = classes@;
                let key = name.clone();
                let ghost gk = key;
                classes.insert(key, Value::Boolean(true));
                proof {
                    lemma_insert_view(prior, classes@, gk, Value::Boolean(true));
                }
                node.set("class", Value::Hash(classes));
                assert(node.errors@ =~= err_before);
            },
        }
        i = i + 1;
    }
    assert(av.take(i as int) =~= av);
}

} // verus!
