//! The pass over a document that gives every property a type.

use crate::properties::{
    is_typed_name, keeps_name, law_typed_property_carries_the_name,
    law_typed_property_keeps_the_value, to_typed_property, typed_property,
};
use crate::text::same_text;
use crate::xml_tree::{element_view, node_view, nodes_view, text_of, ElementView, NodeView};
use vstd::prelude::*;
use xmltree::{Element, XMLNode};

verus! {

/// The element `e` with every property in it typed.
pub open spec fn sanitized(e: ElementView) -> ElementView
    decreases e,
{
    ElementView { children: sanitized_nodes(e.children, e.name == "Properties"@), ..e }
}

/// The nodes of an element with every property typed; `properties` says whether they are the
/// nodes of a `Properties` element. There, an element without a type of its own becomes a typed
/// property, and nodes other than elements and text go.
pub open spec fn sanitized_nodes(nodes: Seq<NodeView>, properties: bool) -> Seq<NodeView>
    decreases nodes,
{
    if nodes.len() == 0 {
        Seq::empty()
    } else {
        let before = sanitized_nodes(nodes.drop_last(), properties);
        match nodes.last() {
            NodeView::Element(e) => if properties && !keeps_name(e.name) {
                before.push(NodeView::Element(typed_property(e)))
            } else {
                before.push(NodeView::Element(sanitized(e)))
            },
            NodeView::Text(t) => before.push(NodeView::Text(t)),
            other => if properties {
                before
            } else {
                before.push(other)
            },
        }
    }
}

/// Whether `e` and everything in it meets the rule for properties: a `Properties` element holds
/// text, items and typed properties only.
pub open spec fn is_sanitized(e: ElementView) -> bool
    decreases e,
{
    nodes_sanitized(e.children, e.name == "Properties"@)
}

/// Whether the nodes of an element meet the rule for properties.
pub open spec fn nodes_sanitized(nodes: Seq<NodeView>, properties: bool) -> bool
    decreases nodes,
{
    forall|i: int|
        0 <= i < nodes.len() ==> match #[trigger] nodes[i] {
            NodeView::Element(e) => (properties ==> keeps_name(e.name)) && is_sanitized(e),
            NodeView::Text(_) => true,
            _ => !properties,
        }
}

/// A sanitized element meets the rule for properties throughout.
pub proof fn law_sanitized_meets_rule(e: ElementView)
    ensures
        is_sanitized(sanitized(e)),
    decreases e, 0int,
{
    lemma_nodes_meet_rule(e.children, e.name == "Properties"@);
}

proof fn lemma_nodes_meet_rule(nodes: Seq<NodeView>, properties: bool)
    ensures
        nodes_sanitized(sanitized_nodes(nodes, properties), properties),
    decreases nodes, 1int,
{
    if nodes.len() > 0 {
        let before = sanitized_nodes(nodes.drop_last(), properties);
        lemma_nodes_meet_rule(nodes.drop_last(), properties);
        assert(decreases_to!(nodes => nodes[nodes.len() - 1]));
        match nodes.last() {
            NodeView::Element(e) => {
                if properties && !keeps_name(e.name) {
                    lemma_typed_property_meets_rule(e);
                } else {
                    law_sanitized_meets_rule(e);
                }
            },
            _ => {},
        }
        let after = sanitized_nodes(nodes, properties);
        assert forall|i: int| 0 <= i < after.len() implies match #[trigger] after[i] {
            NodeView::Element(e) => (properties ==> keeps_name(e.name)) && is_sanitized(e),
            NodeView::Text(_) => true,
            _ => !properties,
        } by {
            if i < before.len() {
                assert(after[i] == before[i]);
            }
        }
    }
}

proof fn lemma_typed_property_meets_rule(e: ElementView)
    ensures
        keeps_name(typed_property(e).name),
        is_sanitized(typed_property(e)),
{
}

/// An element that meets the rule for properties stays as it is.
pub proof fn law_rule_keeps_element(e: ElementView)
    requires
        is_sanitized(e),
    ensures
        sanitized(e) == e,
    decreases e, 0int,
{
    lemma_rule_keeps_nodes(e.children, e.name == "Properties"@);
}

proof fn lemma_rule_keeps_nodes(nodes: Seq<NodeView>, properties: bool)
    requires
        nodes_sanitized(nodes, properties),
    ensures
        sanitized_nodes(nodes, properties) == nodes,
    decreases nodes, 1int,
{
    if nodes.len() > 0 {
        let before = nodes.drop_last();
        assert forall|i: int| 0 <= i < before.len() implies match #[trigger] before[i] {
            NodeView::Element(e) => (properties ==> keeps_name(e.name)) && is_sanitized(e),
            NodeView::Text(_) => true,
            _ => !properties,
        } by {
            assert(before[i] == nodes[i]);
        }
        lemma_rule_keeps_nodes(before, properties);
        assert(decreases_to!(nodes => nodes[nodes.len() - 1]));
        assert(nodes[nodes.len() - 1] == nodes.last());
        if let NodeView::Element(e) = nodes.last() {
            law_rule_keeps_element(e);
        }
        assert(before.push(nodes.last()) =~= nodes);
    }
}

/// To sanitize an element a second time changes nothing.
pub proof fn law_sanitizing_is_idempotent(e: ElementView)
    ensures
        sanitized(sanitized(e)) == sanitized(e),
{
    law_sanitized_meets_rule(e);
    law_rule_keeps_element(sanitized(e));
}

/// The nodes that stay below a `Properties` element: elements and text.
pub open spec fn stays(n: NodeView) -> bool {
    n is Element || n is Text
}

/// No property and no text below a `Properties` element is lost or moved: the nodes that stay
/// are those that were there, text unchanged, items and typed properties sanitized, and each
/// other element made a typed property that carries its name.
pub proof fn law_no_property_is_lost(nodes: Seq<NodeView>)
    ensures
        ({
            let before = nodes.filter(|n: NodeView| stays(n));
            let after = sanitized_nodes(nodes, true);
            &&& after.len() == before.len()
            &&& forall|i: int|
                0 <= i < before.len() ==> match #[trigger] before[i] {
                    NodeView::Element(e) => after[i] == NodeView::Element(
                        if keeps_name(e.name) {
                            sanitized(e)
                        } else {
                            typed_property(e)
                        },
                    ),
                    other => after[i] == other,
                }
        }),
    decreases nodes.len(),
{
    reveal(Seq::filter);
    if nodes.len() > 0 {
        law_no_property_is_lost(nodes.drop_last());
    }
}

/// Outside of `Properties` every node keeps its place, and only elements change.
pub proof fn law_other_nodes_stay(nodes: Seq<NodeView>)
    ensures
        sanitized_nodes(nodes, false).len() == nodes.len(),
        forall|i: int|
            0 <= i < nodes.len() ==> match #[trigger] nodes[i] {
                NodeView::Element(e) => sanitized_nodes(nodes, false)[i] == NodeView::Element(
                    sanitized(e),
                ),
                other => sanitized_nodes(nodes, false)[i] == other,
            },
    decreases nodes.len(),
{
    if nodes.len() > 0 {
        law_other_nodes_stay(nodes.drop_last());
        assert forall|i: int| 0 <= i < nodes.len() implies match #[trigger] nodes[i] {
            NodeView::Element(e) => sanitized_nodes(nodes, false)[i] == NodeView::Element(
                sanitized(e),
            ),
            other => sanitized_nodes(nodes, false)[i] == other,
        } by {
            if i < nodes.len() - 1 {
                assert(nodes.drop_last()[i] == nodes[i]);
            }
        }
    }
}

/// Gives every property in `elem` a type. What `elem` is itself inside of makes no difference.
pub fn sanitize_element(elem: &mut Element, inside_properties: bool)
    ensures
        element_view(*final(elem)) == sanitized(element_view(*old(elem))),
    decreases *old(elem),
{
    let properties = same_text(elem.name.as_str(), "Properties");
    let now_inside = inside_properties || properties;
    let mut nodes: Vec<XMLNode> = Vec::new();
    std::mem::swap(&mut nodes, &mut elem.children);
    let ghost all = nodes@;
    assert(decreases_to!(*old(elem) => old(elem).children));
    assert(decreases_to!(old(elem).children => old(elem).children@));
    let mut kept: Vec<XMLNode> = Vec::new();
    assert(nodes_view(all.take(0)) =~= Seq::<NodeView>::empty());
    assert(nodes_view(kept@) =~= Seq::<NodeView>::empty());
    for node in it: nodes
        invariant
            it.seq() == all,
            all == old(elem).children@,
            decreases_to!(*old(elem) => all),
            nodes_view(kept@) == sanitized_nodes(nodes_view(all.take(it.index())), properties),
    {
        let ghost i = it.index();
        let ghost so_far = kept@;
        assert(decreases_to!(all => all[i]));
        assert(nodes_view(all.take(i + 1)).drop_last() =~= nodes_view(all.take(i)));
        assert(nodes_view(all.take(i + 1)).last() == node_view(node));
        match node {
            XMLNode::Element(child) => {
                let mut child = child;
                if properties && !is_typed_name(child.name.as_str()) {
                    kept.push(XMLNode::Element(to_typed_property(&child)));
                } else {
                    sanitize_element(&mut child, now_inside);
                    kept.push(XMLNode::Element(child));
                }
            },
            XMLNode::Text(text) => {
                kept.push(XMLNode::Text(text));
            },
            other => {
                if !properties {
                    kept.push(other);
                }
            },
        }
        proof {
            if kept@.len() > so_far.len() {
                assert(nodes_view(kept@) =~= nodes_view(so_far).push(node_view(kept@.last())));
            }
        }
    }
    assert(all.take(all.len() as int) =~= all);
    elem.children = kept;
}

/// Sanitizing an element changes its children alone.
pub proof fn law_element_keeps_all_but_its_children(e: ElementView)
    ensures
        sanitized(e).name == e.name,
        sanitized(e).attributes == e.attributes,
        sanitized(e).prefix == e.prefix,
        sanitized(e).namespace == e.namespace,
        sanitized(e).namespaces == e.namespaces,
        e.name != "Properties"@ ==> sanitized(e).children.len() == e.children.len(),
{
    law_other_nodes_stay(e.children);
}

/// A child of an element is sanitized by itself, whatever its siblings are: where the element is
/// not `Properties`, an element child is, and every other node stays.
pub proof fn law_children_are_sanitized_each_for_itself(e: ElementView, i: int)
    requires
        e.name != "Properties"@,
        0 <= i < e.children.len(),
    ensures
        match e.children[i] {
            NodeView::Element(child) => sanitized(e).children[i] == NodeView::Element(
                sanitized(child),
            ),
            other => sanitized(e).children[i] == other,
        },
{
    law_other_nodes_stay(e.children);
}

/// The last child of a `Properties` element makes one child more, or none, of those that are there
/// without it: text stays; an item or an element with the name of a type is sanitized; every
/// other element becomes a property that carries its name, and keeps its text where no element
/// is in it; and what is neither element nor text goes.
pub proof fn law_properties_are_made_one_by_one(nodes: Seq<NodeView>, node: NodeView)
    ensures
        ({
            let before = sanitized_nodes(nodes, true);
            let after = sanitized_nodes(nodes.push(node), true);
            match node {
                NodeView::Text(_) => after == before.push(node),
                NodeView::Element(e) => {
                    &&& after.len() == before.len() + 1
                    &&& after.take(before.len() as int) == before
                    &&& match after.last() {
                        NodeView::Element(made) => if e.name == "Item"@ || e.name == "string"@
                            || e.name == "double"@ || e.name == "int"@ || e.name == "bool"@ || e.name
                            == "boolean"@ || e.name == "ProtectedString"@ || e.name
                            == "BinaryString"@ || e.name == "Content"@ || e.name == "Faces"@
                            || e.name == "BrickColor"@ || e.name == "Color3"@ || e.name
                            == "Vector3"@ || e.name == "CFrame"@ || e.name == "UDim2"@ || e.name
                            == "NumberSequence"@ || e.name == "ColorSequence"@ {
                            made == sanitized(e)
                        } else {
                            &&& made.attributes.len() == 1
                            &&& made.attributes[0] == ("name"@, e.name)
                            &&& (forall|k: int|
                                0 <= k < e.children.len() ==> !(#[trigger] e.children[k] is Element))
                                ==> text_of(made.children) == text_of(e.children)
                            &&& made == typed_property(e)
                        },
                        _ => false,
                    }
                },
                _ => after == before,
            }
        }),
{
    assert(nodes.push(node).drop_last() =~= nodes);
    let before = sanitized_nodes(nodes, true);
    if let NodeView::Element(e) = node {
        law_typed_property_carries_the_name(e);
        law_typed_property_keeps_the_value(e);
        assert(before.push(sanitized_nodes(nodes.push(node), true).last()).take(
            before.len() as int,
        ) =~= before);
    }
}

/// Whether no element in `e`, nor `e` itself, is a `Properties` element.
pub open spec fn is_without_properties(e: ElementView) -> bool
    decreases e,
{
    &&& e.name != "Properties"@
    &&& forall|i: int|
        0 <= i < e.children.len() ==> match #[trigger] e.children[i] {
            NodeView::Element(child) => is_without_properties(child),
            _ => true,
        }
}

/// Where no `Properties` element is, nothing changes.
pub proof fn law_nothing_changes_without_properties(e: ElementView)
    requires
        is_without_properties(e),
    ensures
        sanitized(e) == e,
    decreases e,
{
    law_other_nodes_stay(e.children);
    assert forall|i: int| 0 <= i < e.children.len() implies sanitized(e).children[i]
        == #[trigger] e.children[i] by {
        assert(decreases_to!(e => e.children));
        assert(decreases_to!(e.children => e.children[i]));
        if let NodeView::Element(child) = e.children[i] {
            law_nothing_changes_without_properties(child);
        }
    }
    assert(sanitized(e).children =~= e.children);
}

/// The children of a `Properties` element are made into properties, all of them.
pub proof fn law_all_properties_are_made(e: ElementView)
    ensures
        e.name == "Properties"@ ==> sanitized(e).children == sanitized_nodes(e.children, true),
        sanitized_nodes(Seq::<NodeView>::empty(), true).len() == 0,
{
}

} // verus!
