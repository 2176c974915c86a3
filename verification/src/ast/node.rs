//! The document tree.
//!
//! A node owns its children and its slots; a slot is a named child that a
//! tag carries beside its ordinary ones. Attribute and slot order is authored
//! order. Walking a tree visits every descendant in document order -- a
//! node, then its slots, then its children -- and is iterative, so a deep
//! tree cannot exhaust the call stack.

use vstd::prelude::*;

use crate::ast::{
    IndexMap, Location, NodeType, ValidationError, Value, entries_view, key_index,
    lemma_key_index, node_type_name, str_eq,
};
use crate::grammar::peg::spec_insert;
use crate::grammar::{Attribute, lemma_insert_view};

verus! {

/// A node of the document tree. Two nodes are equal when their fields are,
/// with attributes and slots compared as maps, in any order.
#[derive(Debug)]
pub struct Node<'a> {
    /// What kind of node this is.
    pub node_type: NodeType,
    /// The tag name, for a [`NodeType::Tag`].
    pub tag: Option<String>,
    /// The attributes, in authored order.
    pub attributes: IndexMap<Value>,
    /// The children, in document order.
    pub children: Vec<Node<'a>>,
    /// Named children, in authored order.
    pub slots: Slots<'a>,
    /// What went wrong building this node.
    pub errors: Vec<ValidationError<'a>>,
    /// The zero-based lines the node spans.
    pub lines: Vec<usize>,
    /// The annotations written on the node, verbatim.
    pub annotations: Vec<Attribute>,
    /// Whether the node is inline.
    pub inline: bool,
    /// Where the node came from.
    pub location: Option<Location<'a>>,
}

/// A node's named children, in authored order, one per name.
#[derive(Debug)]
pub struct Slots<'a> {
    /// The slots, in order.
    pub entries: Vec<(String, Node<'a>)>,
}

impl<'a> View for Slots<'a> {
    type V = Seq<(String, Node<'a>)>;

    open spec fn view(&self) -> Seq<(String, Node<'a>)> {
        self.entries@
    }
}

impl<'a> Slots<'a> {
    /// No slots.
    pub fn new() -> (m: Slots<'a>)
        ensures
            m@ == Seq::<(String, Node<'a>)>::empty(),
    {
        Slots { entries: Vec::new() }
    }

    /// The number of slots.
    pub fn len(&self) -> (n: usize)
        ensures
            n == self@.len(),
    {
        self.entries.len()
    }

    /// Whether there are no slots.
    pub fn is_empty(&self) -> (b: bool)
        ensures
            b == (self@.len() == 0),
    {
        self.entries.len() == 0
    }

    /// The index of the slot named `name`, if there is one.
    pub fn index_of(&self, name: &str) -> (r: Option<usize>)
        ensures
            r is None ==> key_index(self@, name@) == -1,
            r matches Some(i) ==> i == key_index(self@, name@),
    {
        proof {
            lemma_key_index(self@, name@);
        }
        let mut i = self.entries.len();
        assert(self.entries@.take(i as int) =~= self.entries@);
        while i > 0
            invariant
                i <= self.entries@.len(),
                key_index(self.entries@, name@) == key_index(self.entries@.take(i as int), name@),
            decreases i,
        {
            if str_eq(self.entries[i - 1].0.as_str(), name) {
                assert(self.entries@.take(i as int).last() == self.entries@[i - 1]);
                return Some(i - 1);
            }
            assert(self.entries@.take(i as int).drop_last() =~= self.entries@.take(i - 1));
            i = i - 1;
        }
        assert(self.entries@.take(0) =~= Seq::<(String, Node<'a>)>::empty());
        None
    }

    /// The slot named `name`.
    pub fn get(&self, name: &str) -> (r: Option<&Node<'a>>)
        ensures
            key_index(self@, name@) == -1 ==> r is None,
            key_index(self@, name@) >= 0 ==> r == Some(&self@[key_index(self@, name@)].1),
    {
        proof {
            lemma_key_index(self@, name@);
        }
        match self.index_of(name) {
            Some(i) => Some(&self.entries[i].1),
            None => None,
        }
    }

    /// Fill the slot `name`. A name already present keeps its position and
    /// takes the new node; a new one goes last.
    pub fn insert(&mut self, name: String, node: Node<'a>)
        ensures
            key_index(old(self)@, name@) >= 0 ==> {
                let i = key_index(old(self)@, name@);
                &&& final(self)@.len() == old(self)@.len()
                &&& final(self)@[i].0@ == name@
                &&& final(self)@[i].1 == node
                &&& forall|j: int|
                    0 <= j < old(self)@.len() && j != i ==> #[trigger] final(self)@[j] == old(
                        self,
                    )@[j]
            },
            key_index(old(self)@, name@) == -1 ==> final(self)@ == old(self)@.push((name, node)),
    {
        proof {
            lemma_key_index(self@, name@);
        }
        match self.index_of(name.as_str()) {
            Some(i) => {
                let mut entries: Vec<(String, Node<'a>)> = Vec::new();
                std::mem::swap(&mut entries, &mut self.entries);
                let (existing, _previous) = entries.remove(i);
                entries.insert(i, (existing, node));
                self.entries = entries;
            },
            None => {
                self.entries.push((name, node));
            },
        }
    }
}

/// A node and its descendants, in document order.
pub open spec fn walk_node<'a>(n: Node<'a>) -> Seq<Node<'a>>
    decreases n,
{
    seq![n] + walk_slots(n.slots.entries@) + walk_children(n.children@)
}

/// The walks of a list of slots, one after another.
pub open spec fn walk_slots<'a>(slots: Seq<(String, Node<'a>)>) -> Seq<Node<'a>>
    decreases slots,
{
    if slots.len() == 0 {
        Seq::empty()
    } else {
        walk_node(slots[0].1) + walk_slots(slots.drop_first())
    }
}

/// The walks of a list of children, one after another.
pub open spec fn walk_children<'a>(children: Seq<Node<'a>>) -> Seq<Node<'a>>
    decreases children,
{
    if children.len() == 0 {
        Seq::empty()
    } else {
        walk_node(children[0]) + walk_children(children.drop_first())
    }
}

/// Every descendant of a node, in document order: each slot's walk, then
/// each child's.
pub open spec fn descendants<'a>(n: Node<'a>) -> Seq<Node<'a>> {
    walk_slots(n.slots.entries@) + walk_children(n.children@)
}

/// How many nodes a tree holds.
pub open spec fn node_size<'a>(n: Node<'a>) -> nat
    decreases n,
{
    1 + slots_size(n.slots.entries@) + children_size(n.children@)
}

/// How many nodes a list of slots holds.
pub open spec fn slots_size<'a>(slots: Seq<(String, Node<'a>)>) -> nat
    decreases slots,
{
    if slots.len() == 0 {
        0
    } else {
        node_size(slots[0].1) + slots_size(slots.drop_first())
    }
}

/// How many nodes a list of children holds.
pub open spec fn children_size<'a>(children: Seq<Node<'a>>) -> nat
    decreases children,
{
    if children.len() == 0 {
        0
    } else {
        node_size(children[0]) + children_size(children.drop_first())
    }
}

/// What a stack of pending nodes walks to, popping from the end.
pub open spec fn stack_walk<'n, 'a>(stack: Seq<&'n Node<'a>>) -> Seq<Node<'a>>
    decreases stack.len(),
{
    if stack.len() == 0 {
        Seq::empty()
    } else {
        walk_node(*stack.last()) + stack_walk(stack.drop_last())
    }
}

/// How many nodes a stack of pending nodes holds.
pub open spec fn stack_size<'n, 'a>(stack: Seq<&'n Node<'a>>) -> nat
    decreases stack.len(),
{
    if stack.len() == 0 {
        0
    } else {
        node_size(*stack.last()) + stack_size(stack.drop_last())
    }
}

/// Push the slots of a node so that they pop in order.
fn push_slots<'n, 'a>(stack: &mut Vec<&'n Node<'a>>, slots: &'n Vec<(String, Node<'a>)>)
    ensures
        stack_walk(final(stack)@) == walk_slots(slots@) + stack_walk(old(stack)@),
        stack_size(final(stack)@) == slots_size(slots@) + stack_size(old(stack)@),
{
    let ghost base = stack@;
    let mut j = slots.len();
    assert(slots@.skip(j as int) =~= Seq::<(String, Node<'a>)>::empty());
    while j > 0
        invariant
            j <= slots@.len(),
            stack_walk(stack@) == walk_slots(slots@.skip(j as int)) + stack_walk(base),
            stack_size(stack@) == slots_size(slots@.skip(j as int)) + stack_size(base),
        decreases j,
    {
        let ghost before = stack@;
        let k = j - 1;
        stack.push(&slots[k].1);
        proof {
            assert(stack@.drop_last() =~= before);
            let rest = slots@.skip(k as int);
            assert(rest[0] == slots@[k as int]);
            assert(rest.drop_first() =~= slots@.skip(j as int));
            assert(stack_walk(stack@) =~= walk_slots(rest) + stack_walk(base));
        }
        j = k;
    }
    assert(slots@.skip(0) =~= slots@);
}

/// Push the children of a node so that they pop in order.
fn push_children<'n, 'a>(stack: &mut Vec<&'n Node<'a>>, children: &'n Vec<Node<'a>>)
    ensures
        stack_walk(final(stack)@) == walk_children(children@) + stack_walk(old(stack)@),
        stack_size(final(stack)@) == children_size(children@) + stack_size(old(stack)@),
{
    let ghost base = stack@;
    let mut j = children.len();
    assert(children@.skip(j as int) =~= Seq::<Node<'a>>::empty());
    while j > 0
        invariant
            j <= children@.len(),
            stack_walk(stack@) == walk_children(children@.skip(j as int)) + stack_walk(base),
            stack_size(stack@) == children_size(children@.skip(j as int)) + stack_size(base),
        decreases j,
    {
        let ghost before = stack@;
        let k = j - 1;
        stack.push(&children[k]);
        proof {
            assert(stack@.drop_last() =~= before);
            let rest = children@.skip(k as int);
            assert(rest[0] == children@[k as int]);
            assert(rest.drop_first() =~= children@.skip(j as int));
            assert(stack_walk(stack@) =~= walk_children(rest) + stack_walk(base));
        }
        j = k;
    }
    assert(children@.skip(0) =~= children@);
}


/// A walk visits each node of a tree exactly once: it is as long as the tree
/// is large.
pub proof fn lemma_walk_len<'a>(n: Node<'a>)
    ensures
        walk_node(n).len() == node_size(n),
    decreases n, 1nat,
{
    lemma_walk_slots_len(n.slots.entries@);
    lemma_walk_children_len(n.children@);
}

/// The walks of a list of slots are as long as the slots are large.
pub proof fn lemma_walk_slots_len<'a>(slots: Seq<(String, Node<'a>)>)
    ensures
        walk_slots(slots).len() == slots_size(slots),
    decreases slots, 0nat,
{
    if slots.len() > 0 {
        lemma_walk_len(slots[0].1);
        lemma_walk_slots_len(slots.drop_first());
    }
}

/// The walks of a list of children are as long as the children are large.
pub proof fn lemma_walk_children_len<'a>(children: Seq<Node<'a>>)
    ensures
        walk_children(children).len() == children_size(children),
    decreases children, 0nat,
{
    if children.len() > 0 {
        lemma_walk_len(children[0]);
        lemma_walk_children_len(children.drop_first());
    }
}

/// Walking a tree visits every node but the root, once each.
pub proof fn lemma_descendants_count<'a>(n: Node<'a>)
    ensures
        descendants(n).len() + 1 == node_size(n),
{
    lemma_walk_len(n);
}

/// The name a node is known by: what [`Node::name`] returns.
pub open spec fn node_name<'a>(n: Node<'a>) -> Seq<char> {
    match n.tag {
        Some(t) => t@,
        None => node_type_name(n.node_type),
    }
}

impl<'a> Node<'a> {
    /// A node of `node_type`, with nothing in it.
    pub fn new(node_type: NodeType) -> (n: Node<'a>)
        ensures
            n.node_type == node_type,
            n.tag is None,
            n.attributes@.len() == 0,
            n.children@.len() == 0,
            n.slots@.len() == 0,
            n.errors@.len() == 0,
            n.lines@.len() == 0,
            n.annotations@.len() == 0,
            !n.inline,
            n.location is None,
    {
        Node {
            node_type,
            tag: None,
            attributes: IndexMap::new(),
            children: Vec::new(),
            slots: Slots::new(),
            errors: Vec::new(),
            lines: Vec::new(),
            annotations: Vec::new(),
            inline: false,
            location: None,
        }
    }

    /// A node with its type, attributes, children and tag name.
    pub fn with(
        node_type: NodeType,
        attributes: IndexMap<Value>,
        children: Vec<Node<'a>>,
        tag: Option<String>,
    ) -> (n: Node<'a>)
        ensures
            n.node_type == node_type,
            n.tag == tag,
            n.attributes == attributes,
            n.children == children,
            n.slots@.len() == 0,
            n.errors@.len() == 0,
            n.lines@.len() == 0,
            n.annotations@.len() == 0,
            !n.inline,
            n.location is None,
    {
        Node {
            node_type,
            tag,
            attributes,
            children,
            slots: Slots::new(),
            errors: Vec::new(),
            lines: Vec::new(),
            annotations: Vec::new(),
            inline: false,
            location: None,
        }
    }

    /// Append a child.
    pub fn push(&mut self, node: Node<'a>)
        ensures
            final(self).children@ == old(self).children@.push(node),
            final(self).node_type == old(self).node_type,
            final(self).tag == old(self).tag,
            final(self).attributes == old(self).attributes,
            final(self).slots == old(self).slots,
            final(self).errors == old(self).errors,
            final(self).lines == old(self).lines,
            final(self).annotations == old(self).annotations,
            final(self).inline == old(self).inline,
            final(self).location == old(self).location,
    {
        self.children.push(node);
    }

    /// Set an attribute. A name already present keeps its position and takes
    /// the new value; a new one goes last.
    pub fn set(&mut self, name: &str, value: Value)
        ensures
            entries_view(final(self).attributes@) == spec_insert(
                entries_view(old(self).attributes@),
                name@,
                value.deep(),
            ),
            final(self).node_type == old(self).node_type,
            final(self).tag == old(self).tag,
            final(self).children == old(self).children,
            final(self).slots == old(self).slots,
            final(self).errors == old(self).errors,
            final(self).lines == old(self).lines,
            final(self).annotations == old(self).annotations,
            final(self).inline == old(self).inline,
            final(self).location == old(self).location,
    {
        let key = name.to_owned();
        let ghost before = self.attributes@;
        let ghost gk = key;
        let ghost gv = value;
        self.attributes.insert(key, value);
        proof {
            lemma_insert_view(before, self.attributes@, gk, gv);
        }
    }

    /// The value of an attribute.
    pub fn get(&self, name: &str) -> (r: Option<&Value>)
        ensures
            key_index(self.attributes@, name@) == -1 ==> r is None,
            key_index(self.attributes@, name@) >= 0 ==> r == Some(
                &self.attributes@[key_index(self.attributes@, name@)].1,
            ),
    {
        self.attributes.get(name)
    }

    /// The name a node is known by: its tag name, or its type's spelling.
    pub fn name(&self) -> (s: &str)
        ensures
            s@ == node_name(*self),
    {
        match &self.tag {
            Some(t) => t.as_str(),
            None => self.node_type.as_str(),
        }
    }

    /// Every descendant, in document order: a node, then its slots, then its
    /// children, each walked in turn. The node itself is not included.
    pub fn walk(&self) -> (r: Vec<&Node<'a>>)
        ensures
            r@.len() == descendants(*self).len(),
            forall|i: int| 0 <= i < r@.len() ==> *r@[i] == #[trigger] descendants(*self)[i],
    {
        let mut out: Vec<&Node<'a>> = Vec::new();
        let mut stack: Vec<&Node<'a>> = Vec::new();
        push_children(&mut stack, &self.children);
        push_slots(&mut stack, &self.slots.entries);
        let ghost target = descendants(*self);
        assert(stack_walk(stack@) =~= target);
        let ghost produced: Seq<Node<'a>> = Seq::empty();
        loop
            invariant
                produced + stack_walk(stack@) == target,
                out@.len() == produced.len(),
                forall|i: int| 0 <= i < out@.len() ==> *out@[i] == produced[i],
            ensures
                produced == target,
                out@.len() == produced.len(),
                forall|i: int| 0 <= i < out@.len() ==> *out@[i] == produced[i],
            decreases stack_size(stack@),
        {
            let ghost before = stack@;
            match stack.pop() {
                None => {
                    assert(produced + Seq::<Node<'a>>::empty() =~= produced);
                    break;
                },
                Some(node) => {
                    proof {
                        assert(before.drop_last() =~= stack@);
                    }
                    let ghost rest = stack_walk(stack@);
                    out.push(node);
                    push_children(&mut stack, &node.children);
                    push_slots(&mut stack, &node.slots.entries);
                    proof {
                        assert(produced.push(*node) + stack_walk(stack@) =~= produced + (seq![*node]
                            + walk_slots(node.slots.entries@) + walk_children(node.children@)
                            + rest));
                        produced = produced.push(*node);
                    }
                },
            }
        }
        out
    }
}

} // verus!
