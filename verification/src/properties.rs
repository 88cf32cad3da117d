//! Property elements: which type each one has, and how it is put down with that type.

use crate::number::{is_number, is_number_text, law_numbers_are_digits, unsigned};
use crate::text::{
    contains_text, copy_of, decode_text, ends_in, ends_with_text, eq_ignoring_case, folded,
    has_text, is_white_space, law_contained_text_splits, law_has_text_is_containment,
    law_white_space_is_trimmed, lemma_encoding_decides, lowercased, occurs_at, same_ignoring_case,
    same_text, to_lower, trim_text, trimmed,
};
use crate::xml_tree::{
    attribute_at, attribute_count, attribute_pairs, document_text, element_text, element_view,
    has_text_node, nodes_view, optional_text, put_attribute, text_of, write_document, ElementView,
    NodeView,
};
use indexmap::IndexMap;
use vstd::prelude::*;
use vstd::utf8::encode_utf8_valid_utf8;
use xmltree::{Element, XMLNode};

verus! {

/// The types that a property can be given.
#[derive(Clone, Copy, Debug, PartialEq, Eq, Structural)]
pub enum PropertyType {
    Double,
    Int,
    Bool,
    Text,
}

/// The name of the element that holds a property of the type `t`.
pub open spec fn name_for(t: PropertyType) -> Seq<char> {
    match t {
        PropertyType::Double => "double"@,
        PropertyType::Int => "int"@,
        PropertyType::Bool => "bool"@,
        PropertyType::Text => "string"@,
    }
}

/// The names under which an element below `Properties` already has a type.
pub open spec fn is_canonical_type(name: Seq<char>) -> bool {
    ||| name == "string"@
    ||| name == "double"@
    ||| name == "int"@
    ||| name == "bool"@
    ||| name == "boolean"@
    ||| name == "ProtectedString"@
    ||| name == "BinaryString"@
    ||| name == "Content"@
    ||| name == "Faces"@
    ||| name == "BrickColor"@
    ||| name == "Color3"@
    ||| name == "Vector3"@
    ||| name == "CFrame"@
    ||| name == "UDim2"@
    ||| name == "NumberSequence"@
    ||| name == "ColorSequence"@
}

/// Whether an element of this name stays as it is below `Properties`.
pub open spec fn keeps_name(name: Seq<char>) -> bool {
    name == "Item"@ || is_canonical_type(name)
}

/// Whether an attribute of this name says what type a property has.
pub open spec fn is_type_key(key: Seq<char>) -> bool {
    ends_in(key, ":type"@) || key == "type"@
}

/// The type that a declaration speaks of, given in lower case.
pub open spec fn type_in(lower: Seq<char>) -> Option<PropertyType> {
    if has_text(lower, "double"@) || has_text(lower, "float"@) || has_text(lower, "decimal"@) {
        Some(PropertyType::Double)
    } else if has_text(lower, "int"@) || has_text(lower, "integer"@) {
        Some(PropertyType::Int)
    } else if has_text(lower, "bool"@) || has_text(lower, "boolean"@) {
        Some(PropertyType::Bool)
    } else if has_text(lower, "string"@) {
        Some(PropertyType::Text)
    } else {
        None
    }
}

/// The type that the attributes give: what the first one that declares a type speaks of.
pub open spec fn declared_type(attributes: Seq<(Seq<char>, Seq<char>)>) -> Option<PropertyType>
    decreases attributes.len(),
{
    if attributes.len() == 0 {
        None
    } else if is_type_key(attributes[0].0) {
        type_in(lowercased(attributes[0].1))
    } else {
        declared_type(attributes.skip(1))
    }
}

/// The type that the text of a property has the look of.
pub open spec fn apparent_type(text: Seq<char>) -> PropertyType {
    let word = trimmed(text);
    if same_ignoring_case(word, "true"@) || same_ignoring_case(word, "false"@) {
        PropertyType::Bool
    } else if is_number(word) {
        PropertyType::Double
    } else {
        PropertyType::Text
    }
}

/// The type of the property that the element `e` stands for.
pub open spec fn property_type(e: ElementView) -> PropertyType {
    match declared_type(e.attributes) {
        Some(t) => t,
        None => apparent_type(text_of(e.children)),
    }
}

/// Whether any of the nodes is an element.
pub open spec fn has_element(nodes: Seq<NodeView>) -> bool {
    exists|i: int| 0 <= i < nodes.len() && #[trigger] nodes[i] is Element
}

/// What a property that is written as the element `e` holds: the element as a document where
/// there are elements in it, and its text otherwise; `None` where there is no text.
pub open spec fn property_value(e: ElementView) -> Option<Seq<char>> {
    if has_element(e.children) {
        Some(document_text(e))
    } else if text_of(e.children).len() > 0 {
        Some(text_of(e.children))
    } else {
        None
    }
}

/// A property element: it is named by its type, and carries the name of the property as an
/// attribute and its value as text.
pub open spec fn property_view(
    name: Seq<char>,
    t: PropertyType,
    value: Option<Seq<char>>,
) -> ElementView {
    ElementView {
        prefix: None,
        namespace: None,
        namespaces: None,
        name: name_for(t),
        attributes: seq![("name"@, name)],
        children: match value {
            Some(text) => seq![NodeView::Text(text)],
            None => Seq::empty(),
        },
    }
}

/// The property element for `e`, whose name becomes the name of the property.
pub open spec fn typed_property(e: ElementView) -> ElementView {
    property_view(e.name, property_type(e), property_value(e))
}

/// Whether an element of this name stays as it is below `Properties`.
pub fn is_typed_name(name: &str) -> (r: bool)
    ensures
        r == keeps_name(name@),
{
    same_text(name, "Item") || same_text(name, "string") || same_text(name, "double") || same_text(
        name,
        "int",
    ) || same_text(name, "bool") || same_text(name, "boolean") || same_text(name, "ProtectedString")
        || same_text(name, "BinaryString") || same_text(name, "Content") || same_text(name, "Faces")
        || same_text(name, "BrickColor") || same_text(name, "Color3") || same_text(name, "Vector3")
        || same_text(name, "CFrame") || same_text(name, "UDim2") || same_text(
        name,
        "NumberSequence",
    ) || same_text(name, "ColorSequence")
}

/// The type that a declaration speaks of, given in lower case.
pub fn type_from_declaration(lower: &str) -> (r: Option<PropertyType>)
    ensures
        r == type_in(lower@),
{
    if contains_text(lower, "double") || contains_text(lower, "float") || contains_text(
        lower,
        "decimal",
    ) {
        Some(PropertyType::Double)
    } else if contains_text(lower, "int") || contains_text(lower, "integer") {
        Some(PropertyType::Int)
    } else if contains_text(lower, "bool") || contains_text(lower, "boolean") {
        Some(PropertyType::Bool)
    } else if contains_text(lower, "string") {
        Some(PropertyType::Text)
    } else {
        None
    }
}

/// The type that the text of a property has the look of.
pub fn type_from_text(text: &str) -> (r: PropertyType)
    ensures
        r == apparent_type(text@),
{
    let word = trim_text(text);
    if eq_ignoring_case(&word, "true") || eq_ignoring_case(&word, "false") {
        PropertyType::Bool
    } else if is_number_text(&word) {
        PropertyType::Double
    } else {
        PropertyType::Text
    }
}

/// The type that the attributes give.
pub fn type_from_attributes(attributes: &IndexMap<String, String>) -> (r: Option<PropertyType>)
    ensures
        r == declared_type(attribute_pairs(*attributes)),
{
    let ghost pairs = attribute_pairs(*attributes);
    let count: usize = attribute_count(attributes);
    let mut i: usize = 0;
    assert(pairs.skip(0) =~= pairs);
    while i < count
        invariant
            i <= count,
            count == pairs.len(),
            pairs == attribute_pairs(*attributes),
            declared_type(pairs) == declared_type(pairs.skip(i as int)),
        decreases count - i,
    {
        let (key, value) = attribute_at(attributes, i);
        if ends_with_text(key.as_str(), ":type") || same_text(key.as_str(), "type") {
            return type_from_declaration(to_lower(value.as_str()).as_str());
        }
        assert(pairs.skip(i as int).skip(1) =~= pairs.skip(i + 1));
        i = i + 1;
    }
    None
}

/// The name of the element that holds a property of the type `t`.
pub fn name_of_type(t: PropertyType) -> (r: &'static str)
    ensures
        r@ == name_for(t),
{
    match t {
        PropertyType::Double => "double",
        PropertyType::Int => "int",
        PropertyType::Bool => "bool",
        PropertyType::Text => "string",
    }
}

/// Whether any of the nodes is an element.
fn any_element(nodes: &Vec<XMLNode>) -> (r: bool)
    ensures
        r == has_element(nodes_view(nodes@)),
{
    let mut i: usize = 0;
    while i < nodes.len()
        invariant
            i <= nodes.len(),
            forall|k: int| 0 <= k < i ==> !(#[trigger] nodes_view(nodes@)[k] is Element),
        decreases nodes.len() - i,
    {
        match &nodes[i] {
            XMLNode::Element(_) => {
                assert(nodes_view(nodes@)[i as int] is Element);
                return true;
            },
            _ => {},
        }
        i = i + 1;
    }
    false
}

/// A property element of the given name, type and value.
pub fn property_element(name: String, t: PropertyType, value: Option<String>) -> (r: Element)
    ensures
        element_view(r) == property_view(name@, t, optional_text(value)),
{
    let mut out = Element::new(name_of_type(t));
    let ghost called = name@;
    put_attribute(&mut out.attributes, copy_of("name"), name);
    assert(attribute_pairs(out.attributes) =~= seq![("name"@, called)]);
    match value {
        Some(text) => {
            out.children.push(XMLNode::Text(text));
            assert(nodes_view(out.children@) =~= seq![NodeView::Text(text@)]);
        },
        None => {
            assert(nodes_view(out.children@) =~= Seq::<NodeView>::empty());
        },
    }
    out
}

/// What a property that is written as the element `e` holds.
fn value_of(e: &Element) -> (r: Option<String>)
    ensures
        optional_text(r) == property_value(element_view(*e)),
{
    if any_element(&e.children) {
        proof {
            encode_utf8_valid_utf8(document_text(element_view(*e)));
        }
        let document = decode_text(write_document(e));
        proof {
            if document is Some {
                lemma_encoding_decides(document->0@, document_text(element_view(*e)));
            }
        }
        document
    } else {
        let text = text_below(e);
        if text.as_str().is_empty() {
            None
        } else {
            Some(text)
        }
    }
}

/// The text that stands directly below `e`.
fn text_below(e: &Element) -> (r: String)
    ensures
        r@ == text_of(nodes_view(e.children@)),
{
    match element_text(e) {
        Some(text) => text,
        None => {
            proof {
                lemma_no_text(nodes_view(e.children@));
            }
            String::new()
        },
    }
}

/// The property element for `e`.
pub fn to_typed_property(e: &Element) -> (r: Element)
    ensures
        element_view(r) == typed_property(element_view(*e)),
{
    let declared = type_from_attributes(&e.attributes);
    let chosen = match declared {
        Some(t) => t,
        None => type_from_text(text_below(e).as_str()),
    };
    property_element(e.name.clone(), chosen, value_of(e))
}

/// Without a text node there is no text.
proof fn lemma_no_text(nodes: Seq<NodeView>)
    requires
        !has_text_node(nodes),
    ensures
        text_of(nodes) == Seq::<char>::empty(),
    decreases nodes.len(),
{
    if nodes.len() > 0 {
        assert(!(nodes[nodes.len() - 1] is Text));
        assert forall|i: int| 0 <= i < nodes.drop_last().len() implies !(
        #[trigger] nodes.drop_last()[i] is Text || nodes.drop_last()[i] is CData) by {
            assert(!(nodes[i] is Text || nodes[i] is CData));
        }
        lemma_no_text(nodes.drop_last());
    }
}

/// A typed property carries the name of the element it was made from, and that alone, as an
/// attribute, and nothing but text.
pub proof fn law_typed_property_carries_the_name(e: ElementView)
    ensures
        typed_property(e).attributes.len() == 1,
        typed_property(e).attributes[0] == ("name"@, e.name),
        typed_property(e).prefix is None,
        typed_property(e).namespace is None,
        typed_property(e).namespaces is None,
        typed_property(e).children.len() <= 1,
        typed_property(e).children.len() == 1 ==> typed_property(e).children[0] is Text,
        typed_property(e).name == "double"@ || typed_property(e).name == "int"@
            || typed_property(e).name == "bool"@ || typed_property(e).name == "string"@,
{
}

/// The value of a property is kept, whatever its type: the text directly below a typed property
/// is that directly below the element it was made from, or, where elements are in that, the
/// element as a document. Only where there is no text at all is there none.
pub proof fn law_typed_property_keeps_the_value(e: ElementView)
    ensures
        (forall|i: int| 0 <= i < e.children.len() ==> !(#[trigger] e.children[i] is Element))
            ==> text_of(typed_property(e).children) == text_of(e.children),
        (exists|i: int| 0 <= i < e.children.len() && #[trigger] e.children[i] is Element)
            ==> text_of(typed_property(e).children) == document_text(e),
        typed_property(e).children.len() == 0 ==> text_of(e.children).len() == 0,
{
    let children = typed_property(e).children;
    reveal_with_fuel(text_of, 2);
    if children.len() == 1 {
        assert(children.drop_last() =~= Seq::<NodeView>::empty());
        assert(children.last() == children[0]);
        assert(text_of(children) =~= match children[0] {
            NodeView::Text(t) => t,
            _ => Seq::empty(),
        });
    } else {
        assert(text_of(e.children) =~= Seq::<char>::empty());
    }
}

/// Whether an attribute of this name is one for the type: `type`, or anything that ends in
/// `:type`.
pub open spec fn names_type(key: Seq<char>) -> bool {
    key == "type"@ || exists|before: Seq<char>| key == #[trigger] (before + ":type"@)
}

proof fn lemma_names_type(key: Seq<char>)
    ensures
        names_type(key) <==> is_type_key(key),
{
    law_contained_text_splits(key, ":type"@);
    if names_type(key) && key != "type"@ {
        let before = choose|before: Seq<char>| key == #[trigger] (before + ":type"@);
        law_has_text_is_containment(before, ":type"@, Seq::empty());
    }
}

/// The first attribute for the type decides, whatever attributes come after it and whatever the
/// element holds: where it speaks of a type, the property has that type.
pub proof fn law_declared_type_decides(
    e: ElementView,
    before: Seq<(Seq<char>, Seq<char>)>,
    key: Seq<char>,
    value: Seq<char>,
    after: Seq<(Seq<char>, Seq<char>)>,
)
    requires
        e.attributes == before.push((key, value)) + after,
        forall|i: int| 0 <= i < before.len() ==> !names_type((#[trigger] before[i]).0),
        names_type(key),
    ensures
        declared_type(e.attributes) == type_in(lowercased(value)),
        match type_in(lowercased(value)) {
            Some(PropertyType::Double) => typed_property(e).name == "double"@,
            Some(PropertyType::Int) => typed_property(e).name == "int"@,
            Some(PropertyType::Bool) => typed_property(e).name == "bool"@,
            Some(PropertyType::Text) => typed_property(e).name == "string"@,
            None => typed_property(e).name == name_for(apparent_type(text_of(e.children))),
        },
{
    lemma_first_declaration(e.attributes, before, key, value, after);
}

proof fn lemma_first_declaration(
    attributes: Seq<(Seq<char>, Seq<char>)>,
    before: Seq<(Seq<char>, Seq<char>)>,
    key: Seq<char>,
    value: Seq<char>,
    after: Seq<(Seq<char>, Seq<char>)>,
)
    requires
        attributes == before.push((key, value)) + after,
        forall|i: int| 0 <= i < before.len() ==> !names_type((#[trigger] before[i]).0),
        names_type(key),
    ensures
        declared_type(attributes) == type_in(lowercased(value)),
    decreases before.len(),
{
    lemma_names_type(attributes[0].0);
    if before.len() > 0 {
        assert(attributes[0] == before[0]);
        let rest = before.skip(1);
        assert forall|i: int| 0 <= i < rest.len() implies !names_type((#[trigger] rest[i]).0) by {
            assert(rest[i] == before[i + 1]);
        }
        assert(attributes.skip(1) =~= rest.push((key, value)) + after);
        lemma_first_declaration(attributes.skip(1), rest, key, value, after);
    } else {
        assert(attributes[0] == (key, value));
    }
}

/// Where no attribute is one for the type, the text decides.
pub proof fn law_text_decides_without_declaration(e: ElementView)
    requires
        forall|i: int| 0 <= i < e.attributes.len() ==> !names_type((#[trigger] e.attributes[i]).0),
    ensures
        declared_type(e.attributes) is None,
        typed_property(e).name == name_for(apparent_type(text_of(e.children))),
{
    lemma_no_declaration(e.attributes);
}

proof fn lemma_no_declaration(attributes: Seq<(Seq<char>, Seq<char>)>)
    requires
        forall|i: int| 0 <= i < attributes.len() ==> !names_type((#[trigger] attributes[i]).0),
    ensures
        declared_type(attributes) is None,
    decreases attributes.len(),
{
    if attributes.len() > 0 {
        lemma_names_type(attributes[0].0);
        let rest = attributes.skip(1);
        assert forall|i: int| 0 <= i < rest.len() implies !names_type((#[trigger] rest[i]).0) by {
            assert(rest[i] == attributes[i + 1]);
        }
        lemma_no_declaration(rest);
    }
}

/// A declaration speaks of a type where the word for it stands anywhere in it; of words for
/// several types, the first of double, int, bool and string counts.
pub proof fn law_words_declare_types(a: Seq<char>, b: Seq<char>)
    ensures
        type_in(a + "double"@ + b) == Some(PropertyType::Double),
        type_in(a + "float"@ + b) == Some(PropertyType::Double),
        type_in(a + "decimal"@ + b) == Some(PropertyType::Double),
        type_in(a + "int"@ + b) is Some,
        type_in(a + "int"@ + b) == Some(PropertyType::Int) || type_in(a + "int"@ + b) == Some(
            PropertyType::Double,
        ),
        type_in(a + "bool"@ + b) is Some,
        type_in(a + "bool"@ + b) != Some(PropertyType::Text),
        type_in(a + "string"@ + b) is Some,
{
    law_has_text_is_containment(a, "double"@, b);
    law_has_text_is_containment(a, "float"@, b);
    law_has_text_is_containment(a, "decimal"@, b);
    law_has_text_is_containment(a, "int"@, b);
    law_has_text_is_containment(a, "bool"@, b);
    law_has_text_is_containment(a, "string"@, b);
}

/// A type that a declaration speaks of has its word in it, and no word of a type that counts
/// before it.
pub proof fn law_declared_types_have_their_words(s: Seq<char>)
    ensures
        match type_in(s) {
            Some(PropertyType::Double) => has_text(s, "double"@) || has_text(s, "float"@)
                || has_text(s, "decimal"@),
            Some(PropertyType::Int) => has_text(s, "int"@) && !has_text(s, "double"@) && !has_text(
                s,
                "float"@,
            ) && !has_text(s, "decimal"@),
            Some(PropertyType::Bool) => has_text(s, "bool"@) && !has_text(s, "int"@) && !has_text(
                s,
                "double"@,
            ) && !has_text(s, "float"@) && !has_text(s, "decimal"@),
            Some(PropertyType::Text) => has_text(s, "string"@) && !has_text(s, "bool"@)
                && !has_text(s, "int"@) && !has_text(s, "double"@) && !has_text(s, "float"@)
                && !has_text(s, "decimal"@),
            None => !has_text(s, "string"@) && !has_text(s, "bool"@) && !has_text(s, "int"@)
                && !has_text(s, "double"@) && !has_text(s, "float"@) && !has_text(s, "decimal"@),
        },
{
    lemma_longer_word(s, "int"@, "integer"@);
    lemma_longer_word(s, "bool"@, "boolean"@);
}

/// Where a longer word stands, so does the one that it starts with.
proof fn lemma_longer_word(s: Seq<char>, word: Seq<char>, longer: Seq<char>)
    requires
        word == "int"@ && longer == "integer"@ || word == "bool"@ && longer == "boolean"@,
    ensures
        has_text(s, longer) ==> has_text(s, word),
{
    reveal_strlit("int");
    reveal_strlit("integer");
    reveal_strlit("bool");
    reveal_strlit("boolean");
    if has_text(s, longer) {
        let at = choose|at: int| occurs_at(s, longer, at);
        let part = s.subrange(at, at + longer.len());
        assert(longer.take(word.len() as int) =~= word);
        assert(s.subrange(at, at + word.len()) =~= part.take(word.len() as int));
        assert(occurs_at(s, word, at));
    }
}

/// Between white space, the words `true` and `false` in any mix of capitals and small letters
/// look like a truth value, a number looks like a double, and everything else like text.
pub proof fn law_looks_go_by_the_word(a: Seq<char>, word: Seq<char>, b: Seq<char>)
    requires
        forall|i: int| 0 <= i < a.len() ==> is_white_space(#[trigger] a[i]),
        forall|i: int| 0 <= i < b.len() ==> is_white_space(#[trigger] b[i]),
        word.len() > 0 ==> !is_white_space(word[0]) && !is_white_space(word.last()),
    ensures
        same_ignoring_case(word, "true"@) ==> apparent_type(a + word + b) == PropertyType::Bool,
        same_ignoring_case(word, "false"@) ==> apparent_type(a + word + b) == PropertyType::Bool,
        is_number(word) ==> apparent_type(a + word + b) == PropertyType::Double,
        !same_ignoring_case(word, "true"@) && !same_ignoring_case(word, "false"@) && !is_number(
            word,
        ) ==> apparent_type(a + word + b) == PropertyType::Text,
{
    law_white_space_is_trimmed(a, word, b);
    if is_number(word) {
        lemma_number_is_no_truth_value(word);
    }
}

proof fn lemma_number_is_no_truth_value(word: Seq<char>)
    requires
        is_number(word),
    ensures
        !same_ignoring_case(word, "true"@),
        !same_ignoring_case(word, "false"@),
{
    reveal_strlit("true");
    reveal_strlit("false");
    reveal_strlit("inf");
    reveal_strlit("infinity");
    reveal_strlit("nan");
    if same_ignoring_case(word, "true"@) || same_ignoring_case(word, "false"@) {
        let first = if same_ignoring_case(word, "true"@) {
            "true"@[0]
        } else {
            "false"@[0]
        };
        assert(folded(word[0]) == folded(first));
        assert(unsigned(word) == word);
        if same_ignoring_case(word, "inf"@) {
            assert(folded(word[0]) == folded("inf"@[0]));
        } else if same_ignoring_case(word, "infinity"@) {
            assert(folded(word[0]) == folded("infinity"@[0]));
        } else if same_ignoring_case(word, "nan"@) {
            assert(folded(word[0]) == folded("nan"@[0]));
        } else {
            law_numbers_are_digits(word);
            assert('0' <= word[0] <= '9' || word[0] == '.' || word[0] == '+' || word[0] == '-');
        }
    }
}

/// The names below `Properties` that stay are `Item` and those of sixteen types, and no other.
pub proof fn law_names_that_stay(name: Seq<char>)
    ensures
        keeps_name(name) <==> name == "Item"@ || name == "string"@ || name == "double"@ || name
            == "int"@ || name == "bool"@ || name == "boolean"@ || name == "ProtectedString"@ || name
            == "BinaryString"@ || name == "Content"@ || name == "Faces"@ || name == "BrickColor"@
            || name == "Color3"@ || name == "Vector3"@ || name == "CFrame"@ || name == "UDim2"@
            || name == "NumberSequence"@ || name == "ColorSequence"@,
        name_for(PropertyType::Double) == "double"@,
        name_for(PropertyType::Int) == "int"@,
        name_for(PropertyType::Bool) == "bool"@,
        name_for(PropertyType::Text) == "string"@,
{
}

/// A property element holds what it was made of, whatever the type: the name as its attribute and
/// the value as its text.
pub proof fn law_property_element_holds_what_it_was_given(
    name: Seq<char>,
    t: PropertyType,
    value: Seq<char>,
)
    ensures
        property_view(name, t, Some(value)).children.len() == 1,
        property_view(name, t, Some(value)).children[0] == NodeView::Text(value),
        property_view(name, t, None).children.len() == 0,
        property_view(name, t, Some(value)).attributes == seq![("name"@, name)],
        property_view(name, t, None).attributes == seq![("name"@, name)],
        property_view(name, t, Some(value)).name == name_for(t),
        property_view(name, t, None).name == name_for(t),
{
}

/// Where the attributes declare a type, the property has it, whatever stands below the element; so
/// two elements with the same attributes that declare a type have the same type.
pub proof fn law_attributes_decide_before_text(e: ElementView, other: ElementView)
    requires
        declared_type(e.attributes) is Some,
    ensures
        match declared_type(e.attributes) {
            Some(t) => typed_property(e).name == name_for(t),
            None => false,
        },
        other.attributes == e.attributes ==> typed_property(other).name == typed_property(e).name,
{
}

} // verus!
