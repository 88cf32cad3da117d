//! Elements of an XML document: what they hold, how they are read and written.

use indexmap::IndexMap;
use vstd::prelude::*;
use vstd::utf8::encode_utf8;
use xmltree::{Element, Namespace, XMLNode};

verus! {

/// The map in which an element keeps its attributes, in the order of the document.
#[verifier::external_type_specification]
#[verifier::external_body]
#[verifier::reject_recursive_types(K)]
#[verifier::reject_recursive_types(V)]
#[verifier::reject_recursive_types(S)]
pub struct ExIndexMap<K, V, S>(indexmap::IndexMap<K, V, S>);

/// The namespace bindings of an element; they are carried along unread.
#[verifier::external_type_specification]
#[verifier::external_body]
pub struct ExNamespace(xmltree::Namespace);

/// An element. Every field is public, so each is read as it stands and nothing is taken on trust.
#[verifier::external_type_specification]
pub struct ExElement(xmltree::Element);

/// A node below an element. Every variant is public, as with the element.
#[verifier::external_type_specification]
pub struct ExXMLNode(xmltree::XMLNode);

/// The attributes that a map holds, name and value, in the order of the map.
pub uninterp spec fn attribute_pairs(map: IndexMap<String, String>) -> Seq<(Seq<char>, Seq<char>)>;

/// What an element holds.
#[verifier::ext_equal]
pub struct ElementView {
    pub prefix: Option<Seq<char>>,
    pub namespace: Option<Seq<char>>,
    pub namespaces: Option<Namespace>,
    pub name: Seq<char>,
    pub attributes: Seq<(Seq<char>, Seq<char>)>,
    pub children: Seq<NodeView>,
}

/// What a node below an element holds.
#[verifier::ext_equal]
pub enum NodeView {
    Element(ElementView),
    Comment(Seq<char>),
    CData(Seq<char>),
    Text(Seq<char>),
    ProcessingInstruction(Seq<char>, Option<Seq<char>>),
}

/// The characters of an optional string.
pub open spec fn optional_text(s: Option<String>) -> Option<Seq<char>> {
    match s {
        Some(t) => Some(t@),
        None => None,
    }
}

/// What the element `e` holds.
pub open spec fn element_view(e: Element) -> ElementView
    decreases e,
{
    ElementView {
        prefix: optional_text(e.prefix),
        namespace: optional_text(e.namespace),
        namespaces: e.namespaces,
        name: e.name@,
        attributes: attribute_pairs(e.attributes),
        children: nodes_view(e.children@),
    }
}

/// What the node `n` holds.
pub open spec fn node_view(n: XMLNode) -> NodeView
    decreases n,
{
    match n {
        XMLNode::Element(e) => NodeView::Element(element_view(e)),
        XMLNode::Comment(t) => NodeView::Comment(t@),
        XMLNode::CData(t) => NodeView::CData(t@),
        XMLNode::Text(t) => NodeView::Text(t@),
        XMLNode::ProcessingInstruction(name, data) => NodeView::ProcessingInstruction(
            name@,
            optional_text(data),
        ),
    }
}

/// What the nodes `nodes` hold, in order.
pub open spec fn nodes_view(nodes: Seq<XMLNode>) -> Seq<NodeView>
    decreases nodes,
{
    Seq::new(
        nodes.len(),
        |i: int|
            if 0 <= i < nodes.len() {
                node_view(nodes[i])
            } else {
                arbitrary()
            },
    )
}

/// The text that stands directly below an element: its text and CDATA nodes, one after another.
pub open spec fn text_of(nodes: Seq<NodeView>) -> Seq<char>
    decreases nodes.len(),
{
    if nodes.len() == 0 {
        Seq::empty()
    } else {
        match nodes.last() {
            NodeView::Text(t) => text_of(nodes.drop_last()) + t,
            NodeView::CData(t) => text_of(nodes.drop_last()) + t,
            _ => text_of(nodes.drop_last()),
        }
    }
}

/// Whether any of the nodes is a text or a CDATA node.
pub open spec fn has_text_node(nodes: Seq<NodeView>) -> bool {
    exists|i: int| 0 <= i < nodes.len() && (#[trigger] nodes[i] is Text || nodes[i] is CData)
}

/// The root element of the document `text`, or `None` where `text` is no document.
pub uninterp spec fn document_root(text: Seq<char>) -> Option<ElementView>;

/// The document with the root element `e`, as `Element::write` puts it down.
pub uninterp spec fn document_text(e: ElementView) -> Seq<char>;

/// The XML declaration that stands at the head of a written document.
pub open spec fn declaration() -> Seq<char> {
    "<?xml version=\"1.0\" encoding=\"UTF-8\"?>"@
}

/// `IndexMap::len`: how many attributes the map holds.
#[verifier::external_body]
pub(crate) fn attribute_count(map: &IndexMap<String, String>) -> (r: usize)
    ensures
        r == attribute_pairs(*map).len(),
{
    map.len()
}

/// `IndexMap::get_index`: the name and the value of the attribute at a place that the map has.
#[verifier::external_body]
pub(crate) fn attribute_at(map: &IndexMap<String, String>, i: usize) -> (r: (&String, &String))
    requires
        i < attribute_pairs(*map).len(),
    ensures
        (r.0@, r.1@) == attribute_pairs(*map)[i as int],
{
    map.get_index(i).unwrap()
}

/// `IndexMap::insert`: a name that the map lacks is added behind the others with its value; a
/// name that it has keeps its place and gets the new value.
#[verifier::external_body]
pub(crate) fn put_attribute(map: &mut IndexMap<String, String>, name: String, value: String)
    ensures
        (forall|i: int|
            0 <= i < attribute_pairs(*old(map)).len() ==> (#[trigger] attribute_pairs(
                *old(map),
            )[i]).0 != name@) ==> attribute_pairs(*final(map)) == attribute_pairs(*old(map)).push(
            (name@, value@),
        ),
        forall|i: int|
            0 <= i < attribute_pairs(*old(map)).len() && (#[trigger] attribute_pairs(
                *old(map),
            )[i]).0 == name@ ==> attribute_pairs(*final(map)) == attribute_pairs(*old(map)).update(
                i,
                (name@, value@),
            ),
{
    map.insert(name, value);
}

/// `Element::new`: an element with the given name and nothing else.
pub assume_specification[ xmltree::Element::new ](name: &str) -> (e: Element)
    ensures
        e.prefix is None,
        e.namespace is None,
        e.namespaces is None,
        e.name@ == name@,
        attribute_pairs(e.attributes) == Seq::<(Seq<char>, Seq<char>)>::empty(),
        e.children@ == Seq::<XMLNode>::empty(),
;

/// `Element::get_text`: the text that stands directly below the element, or `None` where it
/// has no text and no CDATA node.
#[verifier::external_body]
pub(crate) fn element_text(e: &Element) -> (r: Option<String>)
    ensures
        match r {
            Some(t) => has_text_node(nodes_view(e.children@)) && t@ == text_of(
                nodes_view(e.children@),
            ),
            None => !has_text_node(nodes_view(e.children@)),
        },
{
    e.get_text().map(|t| t.into_owned())
}

/// `Element::parse` on the bytes of `text`: the root element, or `None` where it reports an
/// error. Which element that is goes by the name `document_root`.
#[verifier::external_body]
pub(crate) fn parse_document(text: &str) -> (r: Option<Element>)
    ensures
        match r {
            Some(e) => document_root(text@) == Some(element_view(e)),
            None => document_root(text@) is None,
        },
{
    Element::parse(text.as_bytes()).ok()
}

/// `Element::write` into memory: the document as UTF-8. It goes by the name `document_text`,
/// and starts with an XML declaration.
#[verifier::external_body]
pub(crate) fn write_document(e: &Element) -> (r: Vec<u8>)
    ensures
        r@ == encode_utf8(document_text(element_view(*e))),
        exists|rest: Seq<char>| r@ == #[trigger] encode_utf8(declaration() + rest),
{
    let mut out: Vec<u8> = Vec::new();
    e.write(&mut out).ok();
    out
}

/// The text below an element is that of its text and CDATA nodes, in order, and of no other.
pub proof fn law_text_is_that_of_text_nodes(nodes: Seq<NodeView>, node: NodeView)
    ensures
        text_of(Seq::<NodeView>::empty()) == Seq::<char>::empty(),
        match node {
            NodeView::Text(t) => text_of(nodes.push(node)) == text_of(nodes) + t,
            NodeView::CData(t) => text_of(nodes.push(node)) == text_of(nodes) + t,
            _ => text_of(nodes.push(node)) == text_of(nodes),
        },
{
    assert(nodes.push(node).drop_last() =~= nodes);
}

/// What is seen of an element is all that is in it.
pub proof fn law_view_of_element_is_whole(e: Element, i: int)
    ensures
        element_view(e).name == e.name@,
        element_view(e).attributes == attribute_pairs(e.attributes),
        element_view(e).namespaces == e.namespaces,
        e.prefix is Some <==> element_view(e).prefix is Some,
        e.prefix is Some ==> element_view(e).prefix->0 == e.prefix->0@,
        e.namespace is Some <==> element_view(e).namespace is Some,
        e.namespace is Some ==> element_view(e).namespace->0 == e.namespace->0@,
        element_view(e).children.len() == e.children@.len(),
        0 <= i < e.children@.len() ==> match e.children@[i] {
            XMLNode::Element(child) => element_view(e).children[i] == NodeView::Element(
                element_view(child),
            ),
            XMLNode::Comment(t) => element_view(e).children[i] == NodeView::Comment(t@),
            XMLNode::CData(t) => element_view(e).children[i] == NodeView::CData(t@),
            XMLNode::Text(t) => element_view(e).children[i] == NodeView::Text(t@),
            XMLNode::ProcessingInstruction(
                name,
                data,
            ) => match element_view(e).children[i] {
                NodeView::ProcessingInstruction(n, d) => {
                    &&& n == name@
                    &&& d is Some <==> data is Some
                    &&& d is Some ==> d->0 == data->0@
                },
                _ => false,
            },
        },
{
    if 0 <= i < e.children@.len() {
        assert(element_view(e).children[i] == node_view(e.children@[i]));
    }
}

} // verus!
