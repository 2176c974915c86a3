//! ECMAScript's `String(value)`, for attribute values.
//!
//! A renderer writes an attribute as `escapeHtml(String(v))`, and two pieces
//! of `String` are easy to get wrong: a number is spelled as ECMAScript spells
//! it (a `Scalar::Number` already carries that spelling), and `null` inside an
//! array is the empty string -- `String([null])` is `""`, not `"null"`.
//!
//! The join is iterative, over an explicit stack: a renderable tree comes from
//! an attacker-controlled document, and a nested array must not be able to
//! exhaust the call stack.

use vstd::prelude::*;
use vstd::string::StringExecFns;

use crate::renderable::{RenderableTreeNode, RenderableTreeNodes, Scalar};

verus! {

/// What ECMAScript writes for any object without its own `toString`.
pub const OBJECT: &'static str = "[object Object]";

/// `String(value)` for a scalar that is not an array.
pub open spec fn js_leaf(s: Scalar) -> Seq<char> {
    match s {
        Scalar::Null => "null"@,
        Scalar::Boolean(b) => if b {
            "true"@
        } else {
            "false"@
        },
        Scalar::Number(n) => n@,
        Scalar::String(t) => t@,
        Scalar::Object(_) => "[object Object]"@,
        Scalar::Array(_) => Seq::empty(),
    }
}

/// What one element contributes to `Array.prototype.join`: nothing for
/// `null`, the nested join for an array, `String` of anything else.
pub open spec fn js_element(s: Scalar) -> Seq<char>
    decreases s,
{
    match s {
        Scalar::Null => Seq::empty(),
        Scalar::Array(items) => js_join(items@),
        _ => js_leaf(s),
    }
}

/// `Array.prototype.join(',')`.
pub open spec fn js_join(items: Seq<Scalar>) -> Seq<char>
    decreases items,
{
    if items.len() == 0 {
        Seq::empty()
    } else if items.len() == 1 {
        js_element(items[0])
    } else {
        js_element(items[0]) + ","@ + js_join(items.drop_first())
    }
}

/// ECMAScript `String(value)`.
pub open spec fn js_string(s: Scalar) -> Seq<char> {
    match s {
        Scalar::Array(items) => js_join(items@),
        _ => js_leaf(s),
    }
}

/// How much work a scalar is for the join: one per scalar and per comma.
pub open spec fn scalar_weight(s: Scalar) -> nat
    decreases s,
{
    match s {
        Scalar::Array(items) => 1 + items_weight(items@),
        _ => 1,
    }
}

/// The weight of a list of elements and the commas after each.
pub open spec fn items_weight(items: Seq<Scalar>) -> nat
    decreases items,
{
    if items.len() == 0 {
        0
    } else {
        scalar_weight(items[0]) + 1 + items_weight(items.drop_first())
    }
}

/// One step of the iterative join.
pub enum Step<'a> {
    /// An element to write.
    Element(&'a Scalar),
    /// The separator between two elements of one array.
    Comma,
}

/// What a step writes.
pub open spec fn step_text(st: Step) -> Seq<char> {
    match st {
        Step::Element(s) => js_element(*s),
        Step::Comma => ","@,
    }
}

/// What a stack of steps writes, popping from the end.
pub open spec fn pending(stack: Seq<Step>) -> Seq<char>
    decreases stack.len(),
{
    if stack.len() == 0 {
        Seq::empty()
    } else {
        step_text(stack.last()) + pending(stack.drop_last())
    }
}

/// The work left on a stack.
pub open spec fn stack_weight(stack: Seq<Step>) -> nat
    decreases stack.len(),
{
    if stack.len() == 0 {
        0
    } else {
        (match stack.last() {
            Step::Element(s) => scalar_weight(*s),
            Step::Comma => 1,
        }) + stack_weight(stack.drop_last())
    }
}

/// `lead` in front of the join of `items` from `j` on.
pub open spec fn joined_from(items: Seq<Scalar>, j: int) -> Seq<char> {
    (if 0 < j < items.len() {
        ","@
    } else {
        Seq::empty()
    }) + js_join(items.skip(j))
}

/// Push `items` so that they pop in order, separated by commas.
fn push_elements<'a>(stack: &mut Vec<Step<'a>>, items: &'a Vec<Scalar>)
    ensures
        pending(final(stack)@) == js_join(items@) + pending(old(stack)@),
        stack_weight(final(stack)@) + (if items@.len() > 0 {
            1nat
        } else {
            0nat
        }) == stack_weight(old(stack)@) + items_weight(items@),
{
    let ghost base = stack@;
    let mut j = items.len();
    assert(items@.skip(j as int) =~= Seq::<Scalar>::empty());
    while j > 0
        invariant
            j <= items@.len(),
            pending(stack@) == joined_from(items@, j as int) + pending(base),
            stack_weight(stack@) + (if j == 0 && items@.len() > 0 {
                1nat
            } else {
                0nat
            }) == stack_weight(base) + items_weight(items@.skip(j as int)),
        decreases j,
    {
        let ghost before = stack@;
        let k = j - 1;
        stack.push(Step::Element(&items[k]));
        proof {
            assert(stack@.drop_last() =~= before);
            let rest = items@.skip(k as int);
            assert(rest[0] == items@[k as int]);
            assert(rest.drop_first() =~= items@.skip(j as int));
            assert(items_weight(rest) == scalar_weight(items@[k as int]) + 1 + items_weight(
                items@.skip(j as int),
            ));
            if j == items@.len() {
                assert(items@.skip(j as int) =~= Seq::<Scalar>::empty());
                assert(js_join(rest) == js_element(items@[k as int]));
                assert(joined_from(items@, j as int) =~= Seq::<char>::empty());
            } else {
                assert(js_join(rest) == js_element(items@[k as int]) + ","@ + js_join(
                    items@.skip(j as int),
                ));
            }
            assert(pending(stack@) == js_element(items@[k as int]) + pending(before));
            assert(stack_weight(stack@) == scalar_weight(items@[k as int]) + stack_weight(before));
            assert(js_element(items@[k as int]) + joined_from(items@, j as int) =~= js_join(rest));
        }
        if k > 0 {
            let ghost mid = stack@;
            stack.push(Step::Comma);
            proof {
                assert(stack@.drop_last() =~= mid);
                assert(pending(stack@) == ","@ + pending(mid));
                assert(stack_weight(stack@) == 1 + stack_weight(mid));
            }
        }
        proof {
            assert(pending(stack@) =~= joined_from(items@, k as int) + pending(base));
        }
        j = k;
    }
    assert(items@.skip(0) =~= items@);
}

/// `Array.prototype.join(',')`, iteratively.
fn join(items: &Vec<Scalar>) -> (s: String)
    ensures
        s@ == js_join(items@),
{
    let mut out = String::from_str("");
    let mut stack: Vec<Step<'_>> = Vec::new();
    push_elements(&mut stack, items);
    proof {
        reveal_strlit("");
        assert(""@ =~= Seq::<char>::empty());
        assert(out@ + pending(stack@) =~= js_join(items@));
    }
    loop
        invariant
            out@ + pending(stack@) == js_join(items@),
        ensures
            out@ == js_join(items@),
        decreases stack_weight(stack@),
    {
        let ghost before = stack@;
        match stack.pop() {
            None => {
                assert(out@ + Seq::<char>::empty() =~= out@);
                break;
            },
            Some(step) => {
                proof {
                    assert(before.drop_last() =~= stack@);
                }
                match step {
                    Step::Comma => {
                        out.append(",");
                        assert(out@ + pending(stack@) =~= js_join(items@));
                    },
                    Step::Element(scalar) => {
                        match scalar {
                            Scalar::Null => {},
                            Scalar::Array(nested) => {
                                push_elements(&mut stack, nested);
                            },
                            Scalar::Boolean(b) => {
                                if *b {
                                    out.append("true");
                                } else {
                                    out.append("false");
                                }
                                assert(out@ + pending(stack@) =~= js_join(items@));
                            },
                            Scalar::Number(n) => {
                                out.append(n.as_str());
                                assert(out@ + pending(stack@) =~= js_join(items@));
                            },
                            Scalar::String(t) => {
                                out.append(t.as_str());
                                assert(out@ + pending(stack@) =~= js_join(items@));
                            },
                            Scalar::Object(_) => {
                                out.append(OBJECT);
                                assert(out@ + pending(stack@) =~= js_join(items@));
                            },
                        }
                    },
                }
            },
        }
    }
    out
}

/// ECMAScript `String(value)` for a scalar: `null` is `"null"`, a number its
/// spelling, an array its elements joined with commas -- `null` elements
/// contributing nothing and nested arrays flattened -- and an object
/// `[object Object]`.
pub fn string(value: &Scalar) -> (s: String)
    ensures
        s@ == js_string(*value),
{
    match value {
        Scalar::Null => String::from_str("null"),
        Scalar::Boolean(b) => if *b {
            String::from_str("true")
        } else {
            String::from_str("false")
        },
        Scalar::Number(n) => n.clone(),
        Scalar::String(t) => t.clone(),
        Scalar::Array(items) => join(items),
        Scalar::Object(_) => String::from_str(OBJECT),
    }
}

/// What one node contributes to a join over nodes.
pub open spec fn node_element(n: RenderableTreeNode) -> Seq<char> {
    match n {
        RenderableTreeNode::Scalar(s) => js_element(s),
        RenderableTreeNode::Tag(_) => "[object Object]"@,
    }
}

/// `Array.prototype.join(',')` over a list of nodes.
pub open spec fn join_nodes_spec(nodes: Seq<RenderableTreeNode>) -> Seq<char>
    decreases nodes.len(),
{
    if nodes.len() == 0 {
        Seq::empty()
    } else if nodes.len() == 1 {
        node_element(nodes[0])
    } else {
        join_nodes_spec(nodes.drop_last()) + ","@ + node_element(nodes.last())
    }
}

/// ECMAScript `String(value)` for what an attribute holds.
pub open spec fn js_nodes(value: RenderableTreeNodes) -> Seq<char> {
    match value {
        RenderableTreeNodes::One(RenderableTreeNode::Scalar(s)) => js_string(s),
        RenderableTreeNodes::One(RenderableTreeNode::Tag(_)) => "[object Object]"@,
        RenderableTreeNodes::Many(nodes) => join_nodes_spec(nodes@),
    }
}

/// `Array.prototype.join(',')` over a list of nodes. Flat: only a scalar
/// array inside it nests, and `join` handles that.
fn join_nodes(nodes: &Vec<RenderableTreeNode>) -> (s: String)
    ensures
        s@ == join_nodes_spec(nodes@),
{
    let mut out = String::from_str("");
    proof {
        reveal_strlit("");
        assert(""@ =~= Seq::<char>::empty());
        assert(nodes@.take(0) =~= Seq::<RenderableTreeNode>::empty());
    }
    let mut i: usize = 0;
    while i < nodes.len()
        invariant
            i <= nodes@.len(),
            out@ == join_nodes_spec(nodes@.take(i as int)),
        decreases nodes.len() - i,
    {
        let ghost before = out@;
        if i > 0 {
            out.append(",");
        }
        match &nodes[i] {
            RenderableTreeNode::Scalar(Scalar::Null) => {},
            RenderableTreeNode::Scalar(Scalar::Array(nested)) => {
                let text = join(nested);
                out.append(text.as_str());
            },
            RenderableTreeNode::Scalar(scalar) => {
                let text = string(scalar);
                out.append(text.as_str());
            },
            RenderableTreeNode::Tag(_) => {
                out.append(OBJECT);
            },
        }
        proof {
            assert(nodes@.take(i + 1).drop_last() =~= nodes@.take(i as int));
            if i == 0 {
                assert(before =~= Seq::<char>::empty());
            }
        }
        i = i + 1;
    }
    assert(nodes@.take(i as int) =~= nodes@);
    out
}

/// ECMAScript `String(value)` for what an attribute holds: one scalar as
/// [`string`], one tag as `[object Object]`, a list joined with commas.
pub fn string_nodes(value: &RenderableTreeNodes) -> (s: String)
    ensures
        s@ == js_nodes(*value),
{
    match value {
        RenderableTreeNodes::One(RenderableTreeNode::Scalar(scalar)) => string(scalar),
        RenderableTreeNodes::One(RenderableTreeNode::Tag(_)) => String::from_str(OBJECT),
        RenderableTreeNodes::Many(nodes) => join_nodes(nodes),
    }
}

} // verus!
