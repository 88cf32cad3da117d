use rbxlx_to_rojo::elements::sanitize_element;
use rbxlx_to_rojo::properties::{
    is_typed_name, name_of_type, property_element, to_typed_property, type_from_attributes,
    type_from_declaration, type_from_text, PropertyType,
};
use rbxlx_to_rojo::sanitize::{
    escape_strays, guard_text, rewrite_document, rewrite_event, sanitize_rbxlx, sanitized_copy,
    type_document,
};
use rbxlx_to_rojo::xml_events::{EventKind, Markup};
use xmltree::{Element, XMLNode};

const HEAD: &str = "<?xml version=\"1.0\" encoding=\"UTF-8\"?>";

fn element(text: &str) -> Element {
    Element::parse(text.as_bytes()).unwrap()
}

fn sanitized(text: &str) -> Element {
    let mut e = element(text);
    sanitize_element(&mut e, false);
    e
}

#[test]
fn typed_names_are_known() {
    for name in [
        "Item", "string", "double", "int", "bool", "boolean", "ProtectedString", "BinaryString",
        "Content", "Faces", "BrickColor", "Color3", "Vector3", "CFrame", "UDim2",
        "NumberSequence", "ColorSequence",
    ] {
        assert!(is_typed_name(name));
    }
    for name in ["Health", "String", "float", "items", "", "Properties"] {
        assert!(!is_typed_name(name));
    }
}

#[test]
fn declarations_name_types() {
    assert_eq!(type_from_declaration("xs:double"), Some(PropertyType::Double));
    assert_eq!(type_from_declaration("a float"), Some(PropertyType::Double));
    assert_eq!(type_from_declaration("decimal"), Some(PropertyType::Double));
    assert_eq!(type_from_declaration("xs:int"), Some(PropertyType::Int));
    assert_eq!(type_from_declaration("integer"), Some(PropertyType::Int));
    assert_eq!(type_from_declaration("bool"), Some(PropertyType::Bool));
    assert_eq!(type_from_declaration("boolean"), Some(PropertyType::Bool));
    assert_eq!(type_from_declaration("string"), Some(PropertyType::Text));
    assert_eq!(type_from_declaration("color"), None);
    assert_eq!(type_from_declaration(""), None);
    assert_eq!(type_from_declaration("point or double"), Some(PropertyType::Double));
    assert_eq!(type_from_declaration("pointed"), Some(PropertyType::Int));
}

#[test]
fn text_has_the_look_of_a_type() {
    assert_eq!(type_from_text(" TRUE\n"), PropertyType::Bool);
    assert_eq!(type_from_text("\u{2003}False\u{3000}"), PropertyType::Bool);
    assert_eq!(type_from_text("truely"), PropertyType::Text);
    assert_eq!(type_from_text(" -1.5e3 "), PropertyType::Double);
    assert_eq!(type_from_text("7"), PropertyType::Double);
    assert_eq!(type_from_text(""), PropertyType::Text);
    assert_eq!(type_from_text("hello"), PropertyType::Text);
}

#[test]
fn numbers_are_those_that_a_float_is_read_from() {
    for text in [
        "0", "7.", ".5", "+.5", "-0.0", "1e5", "1E+5", "1e-05", "1.e3", ".1e1", "inf", "-inf",
        "+Infinity", "NaN", "-nan", "infinit", "", "+", "-", ".", "e5", "1e", "1e+", "1.2.3",
        "1_000", "0x10", "1 2", "++1", "+-1", "1e5.0", "nan1", "٣", "1e5e5", "--inf", "e", ".e1",
    ] {
        let expected = if text.parse::<f64>().is_ok() {
            PropertyType::Double
        } else {
            PropertyType::Text
        };
        assert_eq!(type_from_text(text), expected, "{:?}", text);
    }
}

#[test]
fn white_space_is_trimmed_as_the_standard_library_does() {
    for n in (0u32..0x3100).filter(|n| char::from_u32(*n).is_some()) {
        let c = char::from_u32(n).unwrap();
        let text = format!("{}7{}", c, c);
        let expected = if text.trim().parse::<f64>().is_ok() {
            PropertyType::Double
        } else {
            PropertyType::Text
        };
        assert_eq!(type_from_text(&text), expected, "{:x}", n);
    }
}

#[test]
fn the_first_type_attribute_decides() {
    let typed = |text: &str| type_from_attributes(&element(text).attributes);
    assert_eq!(typed("<a b='1' type='xs:INT'/>"), Some(PropertyType::Int));
    assert_eq!(typed("<a type='BOOL' other='double'/>"), Some(PropertyType::Bool));
    assert_eq!(typed("<a mytype='int'/>"), None);
    assert_eq!(typed("<a/>"), None);
    let mut e = Element::new("a");
    e.attributes.insert("other".to_string(), "double".to_string());
    e.attributes.insert("xsi:type".to_string(), "odd".to_string());
    e.attributes.insert("type".to_string(), "int".to_string());
    assert_eq!(type_from_attributes(&e.attributes), None);
    e.attributes.insert("xsi:type".to_string(), "STRING".to_string());
    assert_eq!(type_from_attributes(&e.attributes), Some(PropertyType::Text));
}

#[test]
fn property_elements_carry_name_and_value() {
    let e = property_element("Health".to_string(), PropertyType::Int, Some("5".to_string()));
    assert_eq!(e.name, "int");
    assert_eq!(e.attributes.len(), 1);
    assert_eq!(e.attributes.get("name").unwrap(), "Health");
    assert_eq!(e.children, vec![XMLNode::Text("5".to_string())]);
    assert!(property_element("N".to_string(), PropertyType::Text, None).children.is_empty());
    assert_eq!(name_of_type(PropertyType::Double), "double");
    assert_eq!(name_of_type(PropertyType::Bool), "bool");
    assert_eq!(name_of_type(PropertyType::Text), "string");
}

#[test]
fn elements_in_a_property_become_its_text() {
    let e = to_typed_property(&element("<Size type='x'>a<X>1</X></Size>"));
    assert_eq!(e.name, "string");
    assert_eq!(
        e.children,
        vec![XMLNode::Text(format!("{}<Size type=\"x\">a<X>1</X></Size>", HEAD))]
    );
}

#[test]
fn text_and_cdata_are_read_together() {
    let mut e = Element::new("Speed");
    e.children.push(XMLNode::Text("1".to_string()));
    e.children.push(XMLNode::Comment("7".to_string()));
    e.children.push(XMLNode::CData("2".to_string()));
    let typed = to_typed_property(&e);
    assert_eq!(typed.name, "double");
    assert_eq!(typed.children, vec![XMLNode::Text("12".to_string())]);
}

#[test]
fn properties_are_typed_in_place() {
    let e = sanitized(
        "<Item><Properties>t<!--c--><Health>5</Health><string name='N'>x</string><Empty/>\
         <On type='xs:boolean'>no</On></Properties></Item>",
    );
    let properties = e.get_child("Properties").unwrap();
    assert_eq!(properties.children[0], XMLNode::Text("t".to_string()));
    let names: Vec<(&str, &str)> = properties.children[1..]
        .iter()
        .map(|n| n.as_element().unwrap())
        .map(|e| (e.name.as_str(), e.attributes.get("name").unwrap().as_str()))
        .collect();
    assert_eq!(names, [("double", "Health"), ("string", "N"), ("string", "Empty"), ("bool", "On")]);
    assert!(properties.children[3].as_element().unwrap().children.is_empty());
}

#[test]
fn items_below_properties_are_sanitized_too() {
    let e = sanitized(
        "<Properties><Item><Properties><A>1</A></Properties></Item></Properties>",
    );
    let a = e.get_child("Item").unwrap().get_child("Properties").unwrap();
    assert_eq!(a.children.len(), 1);
    assert_eq!(a.children[0].as_element().unwrap().name, "double");
}

#[test]
fn properties_directly_in_properties_are_a_property() {
    let e = sanitized("<Properties><Properties>x</Properties></Properties>");
    let p = e.children[0].as_element().unwrap();
    assert_eq!(p.name, "string");
    assert_eq!(p.attributes.get("name").unwrap(), "Properties");
}

#[test]
fn other_elements_stay() {
    let text = "<a b='c'>x<!--y--><Health>5</Health></a>";
    assert_eq!(sanitized(text), element(text));
}

#[test]
fn sanitizing_elements_is_idempotent() {
    let once = sanitized("<r><Properties><A>1</A><B><C/></B></Properties><Item/></r>");
    let mut twice = once.clone();
    sanitize_element(&mut twice, true);
    assert_eq!(once, twice);
}

#[test]
fn what_surrounds_an_element_makes_no_difference() {
    let text = "<a><Properties><X>1</X></Properties><Y/></a>";
    let (mut inside, mut outside) = (element(text), element(text));
    sanitize_element(&mut inside, true);
    sanitize_element(&mut outside, false);
    assert_eq!(inside, outside);
}

#[test]
fn delimiters_in_text_are_taken_apart() {
    assert_eq!(guard_text("a<?b?>c"), "a&lt;?b?&gt;c");
    assert_eq!(guard_text("<?>"), "&lt;?&gt;");
    assert_eq!(guard_text("<<??>>"), "<&lt;??&gt;>");
    assert_eq!(guard_text("a < b > c ? d"), "a < b > c ? d");
    for text in ["<?>", "??>>", "<<?", "?<?>?>"] {
        let guarded = guard_text(text);
        assert_eq!(guarded, text.replace("<?", "&lt;?").replace("?>", "?&gt;"));
        assert!(!guarded.contains("<?") && !guarded.contains("?>"));
    }
}

#[test]
fn events_are_rewritten() {
    let same = |kind, markup| {
        assert_eq!(rewrite_event(kind, "a b", None), Some((markup, "a b".to_string())));
    };
    same(EventKind::Start, Markup::Start);
    same(EventKind::End, Markup::End);
    same(EventKind::Empty, Markup::Empty);
    same(EventKind::Decl, Markup::Decl);
    same(EventKind::DocType, Markup::DocType);
    same(EventKind::Text, Markup::Text);
    assert_eq!(rewrite_event(EventKind::Comment, "a", None), None);
    assert_eq!(rewrite_event(EventKind::Instruction, "a", None), None);
    assert_eq!(rewrite_event(EventKind::Eof, "", None), None);
    assert_eq!(
        rewrite_event(EventKind::CData, "<a & 'b' \"c\">", None),
        Some((Markup::Text, "&lt;a &amp; &apos;b&apos; &quot;c&quot;&gt;".to_string()))
    );
    assert_eq!(
        rewrite_event(EventKind::Text, "raw", Some("<? & ?>".to_string())),
        Some((Markup::Text, "&amp;lt;? &amp; ?&amp;gt;".to_string()))
    );
}

#[test]
fn documents_are_rewritten() {
    assert_eq!(
        rewrite_document(
            "<?xml version='1.0'?><!DOCTYPE  r ><r a='1'><!-- c --><?pi d?>x &amp; y<e/>\
             <![CDATA[1 < 2]]></r>"
        ),
        Some(
            "<?xml version='1.0'?><!DOCTYPE r ><r a='1'>x &amp; y<e/>1 &lt; 2</r>".to_string()
        )
    );
    assert_eq!(rewrite_document("it's"), Some("it&apos;s".to_string()));
    assert_eq!(rewrite_document("<a>&nope;</a>"), Some("<a>&nope;</a>".to_string()));
    assert_eq!(rewrite_document("<a> b </a>"), Some("<a> b </a>".to_string()));
    assert_eq!(rewrite_document(""), Some(String::new()));
    assert_eq!(rewrite_document("<a></b>"), None);
    assert_eq!(rewrite_document("<a"), None);
}

#[test]
fn what_is_no_document_stays() {
    for text in ["plain", "", "<a>", "<a>&nope;</a>", "<!--c-->", "<?pi x?>", HEAD] {
        assert_eq!(type_document(text.to_string()), text);
    }
    assert_eq!(type_document("<a/>".to_string()), format!("{}<a />", HEAD));
}

#[test]
fn stray_ends_are_escaped() {
    assert_eq!(escape_strays("a?>b<?xml c?>d?>e"), "a?&gt;b<?xml c?>d?&gt;e");
    assert_eq!(escape_strays("a?>b"), "a?&gt;b");
    assert_eq!(escape_strays("<?xml"), "<?xml");
    assert_eq!(escape_strays("?><?xml"), "?&gt;<?xml");
    assert_eq!(escape_strays("<?xml?>?><?xml?>"), "<?xml?>?&gt;<?xml?&gt;");
    assert_eq!(escape_strays("日?>本"), "日?&gt;本");
    assert_eq!(escape_strays(""), "");
}

#[test]
fn escaping_strays_is_idempotent() {
    for text in ["a?>b<?xml c?>d?>e", "??>>", "<?xml<?xml?>?>", "?>"] {
        let once = escape_strays(text);
        assert_eq!(escape_strays(&once), once);
        assert!(once.matches("?>").count() <= 1);
    }
}

#[test]
fn place_files_are_sanitized() {
    let source = "<roblox version=\"4\"><!-- c --><?pi x?><Item class=\"Part\"><Properties>\
                  <Health type=\"xs:DOUBLE\">5</Health></Properties></Item></roblox>";
    let expected = format!(
        "{}<roblox version=\"4\"><Item class=\"Part\"><Properties><double name=\"Health\">5\
         </double></Properties></Item></roblox>",
        HEAD
    );
    assert_eq!(sanitize_rbxlx(source), expected);
    assert_eq!(sanitized_copy(source), Some(expected));
}

#[test]
fn broken_markup_stays_as_it_is() {
    let source = "<a><!-- c --></b>?>";
    assert_eq!(sanitize_rbxlx(source), source);
    assert_eq!(sanitized_copy(source), None);
}

#[test]
fn comments_and_instructions_leave_no_trace() {
    assert_eq!(
        sanitize_rbxlx("<r><!--a--><?b c?><x>1</x><!--d--></r>"),
        sanitize_rbxlx("<r><x>1</x></r>")
    );
}

#[test]
fn one_comment_or_instruction_more_makes_no_difference() {
    let befores = [
        "", "<r>", "<r>text", "<r a='>'>x > y", "<!DOCTYPE r><r/>", "<r><![CDATA[<]]>", "x",
    ];
    let afters = ["</r>", "<s/>", "<s>1</s></r>", "<", "<!--z-->", "<?xml version='1.0'?><r/>"];
    let inserted = [
        "<!---->", "<!--c-->", "<!--a-b--->", "<!-->-->", "<!--->-->", "<!--<x>-->", "<?p?>",
        "<?p a=\"<\"?>", "<?xml?>", "<?xml-s y?>", "<???>",
    ];
    for a in befores {
        for b in afters {
            let without = rewrite_document(&format!("{}{}", a, b));
            for m in inserted {
                let with = format!("{}{}{}", a, m, b);
                assert_eq!(rewrite_document(&with), without, "{:?}", with);
                if without.is_some() {
                    assert_eq!(sanitize_rbxlx(&with), sanitize_rbxlx(&format!("{}{}", a, b)));
                }
            }
        }
    }
}

#[test]
fn only_the_declaration_ends_stay() {
    for source in ["<r>a?>b</r>", "<r x='?>'/>", "a?>b", "<?xml version='1.0'?><r>?></r>"] {
        let result = sanitize_rbxlx(source);
        match result.find("?>") {
            Some(at) => {
                assert_eq!(result[at + 2..].find("?>"), None);
                assert!(result[..at].contains("<?xml"));
            }
            None => {}
        }
    }
    assert_eq!(sanitize_rbxlx("a?>b"), "a?&amp;gt;b");
}

#[test]
fn documents_start_with_their_declaration() {
    assert!(sanitize_rbxlx("<a/>").starts_with(HEAD));
    assert!(sanitize_rbxlx("<?xml version='1.0'?><a/>").starts_with(HEAD));
}
