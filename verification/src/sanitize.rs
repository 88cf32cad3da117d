//! The pass over the text of a place file that makes it readable to the decoder: comments and
//! processing instructions go, properties get types, and no stray end of an instruction stays.

use crate::elements::{
    is_without_properties, law_nothing_changes_without_properties, sanitize_element, sanitized,
};
use crate::text::{
    chars_of, copy_of, decode_text, find_from, first_from, has_text,
    law_first_occurrence_is_replaced, lemma_encoding_decides, lemma_first_from,
    lemma_first_from_is, lemma_has_pair, lemma_occurs_pair, lemma_replaced_adds_up,
    lemma_replaced_no_pair, lemma_replaced_unchanged, no_pair, occurs_at, part_of, push_all,
    replace_text, replaced, string_of,
};
use crate::xml_events::{
    escape_cdata, escape_text, escaped, finish_writer, has_one_more, is_dropped, is_insertion,
    is_last, markup, next_event, open_reader, open_writer, pending_events, stops, unescape_text,
    unescaped, write_event, written, xml_events, EventKind, Markup,
};
use crate::xml_tree::{
    declaration, document_root, document_text, element_view, optional_text, parse_document,
    write_document,
};
use vstd::prelude::*;
use vstd::utf8::{encode_utf8, encode_utf8_valid_utf8};

verus! {

/// Text with the delimiters of processing instructions in it taken apart.
pub open spec fn guarded(text: Seq<char>) -> Seq<char> {
    replaced(replaced(text, "<?"@, "&lt;?"@), "?>"@, "?&gt;"@)
}

/// What is written for an event, `None` for nothing. `plain` is what the content of a text
/// stands for, where that can be told.
pub open spec fn rewritten(kind: EventKind, content: Seq<char>, plain: Option<Seq<char>>) -> Option<
    (Markup, Seq<char>),
> {
    match kind {
        EventKind::Start => Some((Markup::Start, content)),
        EventKind::End => Some((Markup::End, content)),
        EventKind::Empty => Some((Markup::Empty, content)),
        EventKind::Text => match plain {
            Some(text) => Some((Markup::Text, escaped(guarded(text)))),
            None => Some((Markup::Text, content)),
        },
        EventKind::CData => Some((Markup::Text, escaped(content))),
        EventKind::Comment => None,
        EventKind::Decl => Some((Markup::Decl, content)),
        EventKind::Instruction => None,
        EventKind::DocType => Some((Markup::DocType, content)),
        EventKind::Eof => None,
    }
}

/// The text that is written for the events, one after another.
pub open spec fn rewritten_text(events: Seq<Option<(EventKind, Seq<char>)>>) -> Seq<char>
    decreases events.len(),
{
    if events.len() == 0 {
        Seq::empty()
    } else {
        let before = rewritten_text(events.drop_last());
        match events.last() {
            Some((kind, content)) => match rewritten(kind, content, unescaped(content)) {
                Some((m, c)) => before + markup(m, c),
                None => before,
            },
            None => before,
        }
    }
}

/// The document `text` with every property typed, or `text` itself where it is no document.
pub open spec fn typed_document(text: Seq<char>) -> Seq<char> {
    match document_root(text) {
        Some(root) => document_text(sanitized(root)),
        None => text,
    }
}

/// Where the first XML declaration in `s` is closed.
pub open spec fn declaration_end(s: Seq<char>) -> Option<int> {
    match first_from(s, "<?xml"@, 0) {
        Some(start) => first_from(s, "?>"@, start),
        None => None,
    }
}

/// `s` with every `?>` escaped.
pub open spec fn ends_escaped(s: Seq<char>) -> Seq<char> {
    replaced(s, "?>"@, "?&gt;"@)
}

/// `s` with every `?>` escaped but the one that closes the first XML declaration.
pub open spec fn strays_escaped(s: Seq<char>) -> Seq<char> {
    match declaration_end(s) {
        Some(end) => ends_escaped(s.take(end)) + "?>"@ + ends_escaped(s.skip(end + 2)),
        None => ends_escaped(s),
    }
}

/// The document `source` without its comments and processing instructions, with its text escaped
/// anew; `None` where its markup is broken.
pub open spec fn rewritten_document(source: Seq<char>) -> Option<Seq<char>> {
    let events = xml_events(source);
    if events.last() is None {
        None
    } else {
        Some(rewritten_text(events))
    }
}

/// What sanitizing makes of the document `source`; `None` where its markup is broken.
pub open spec fn sanitized_text(source: Seq<char>) -> Option<Seq<char>> {
    match rewritten_document(source) {
        Some(text) => Some(strays_escaped(typed_document(text))),
        None => None,
    }
}

/// What sanitizing gives for the document `source`: where its markup is broken, `source`.
pub open spec fn sanitized_or_source(source: Seq<char>) -> Seq<char> {
    match sanitized_text(source) {
        Some(text) => text,
        None => source,
    }
}

/// Whether the only `?>` in `s` is one that closes its first XML declaration.
pub open spec fn only_declaration_ends(s: Seq<char>) -> bool {
    forall|at: int| #[trigger] occurs_at(s, "?>"@, at) ==> declaration_end(s) == Some(at)
}

/// Takes the delimiters of processing instructions in a text apart.
pub fn guard_text(text: &str) -> (r: String)
    ensures
        r@ == guarded(text@),
{
    proof {
        reveal_strlit("<?");
        reveal_strlit("?>");
    }
    let opened = replace_text(&chars_of(text), "<?", "&lt;?");
    string_of(&replace_text(&opened, "?>", "?&gt;"))
}

/// What is written for an event, `None` for nothing. `plain` is what the content of a text
/// stands for, where that can be told.
pub fn rewrite_event(kind: EventKind, content: &str, plain: Option<String>) -> (r: Option<
    (Markup, String),
>)
    ensures
        match r {
            Some((m, c)) => rewritten(kind, content@, optional_text(plain)) == Some((m, c@)),
            None => rewritten(kind, content@, optional_text(plain)) is None,
        },
        kind == EventKind::CData ==> match r {
            Some((_, c)) => unescaped(c@) == Some(content@),
            None => false,
        },
        kind == EventKind::Text ==> match (plain, r) {
            (Some(t), Some((_, c))) => {
                &&& unescaped(c@) == Some(guarded(t@))
                &&& !has_text(t@, "<?"@) && !has_text(t@, "?>"@) ==> unescaped(c@) == Some(t@)
            },
            (None, Some((_, c))) => c@ == content@,
            _ => false,
        },
{
    match kind {
        EventKind::Start => Some((Markup::Start, copy_of(content))),
        EventKind::End => Some((Markup::End, copy_of(content))),
        EventKind::Empty => Some((Markup::Empty, copy_of(content))),
        EventKind::Text => match plain {
            Some(text) => {
                proof {
                    if !has_text(text@, "<?"@) && !has_text(text@, "?>"@) {
                        law_other_text_stays(text@);
                    }
                }
                Some((Markup::Text, escape_text(guard_text(text.as_str()).as_str())))
            },
            None => Some((Markup::Text, copy_of(content))),
        },
        EventKind::CData => Some((Markup::Text, escape_cdata(content))),
        EventKind::Comment => None,
        EventKind::Decl => Some((Markup::Decl, copy_of(content))),
        EventKind::Instruction => None,
        EventKind::DocType => Some((Markup::DocType, copy_of(content))),
        EventKind::Eof => None,
    }
}

/// The document without its comments and processing instructions, with its text escaped anew;
/// `None` where its markup is broken.
pub fn rewrite_document(source: &str) -> (r: Option<String>)
    ensures
        optional_text(r) == rewritten_document(source@),
        forall|a: Seq<char>, m: Seq<char>, b: Seq<char>, event: (EventKind, Seq<char>)| #[trigger]
            is_insertion(source@, a, m, b, event) ==> optional_text(r) == rewritten_document(a + b),
{
    let mut reader = open_reader(source);
    let ghost all = pending_events(reader);
    proof {
        assert forall|a: Seq<char>, m: Seq<char>, b: Seq<char>, event: (EventKind, Seq<char>)|
            #[trigger] is_insertion(source@, a, m, b, event) implies rewritten_document(source@)
            == rewritten_document(a + b) by {
            lemma_one_more_makes_no_difference(
                all,
                xml_events(a + b),
                xml_events(a).len() - 1,
                event,
            );
        }
    }
    let ghost mut done: int = 0;
    let mut writer = open_writer();
    let mut ended = false;
    assert(all.skip(0) =~= all);
    assert(rewritten_text(all.take(0)) =~= Seq::<char>::empty());
    while !ended
        invariant
            all == xml_events(source@),
            stops(all),
            forall|a: Seq<char>, m: Seq<char>, b: Seq<char>, event: (EventKind, Seq<char>)|
                #[trigger] is_insertion(source@, a, m, b, event) ==> rewritten_document(source@)
                    == rewritten_document(a + b),
            0 <= done <= all.len(),
            ended <==> done == all.len(),
            ended ==> all.last() is Some,
            pending_events(reader) == all.skip(done),
            written(writer) == rewritten_text(all.take(done)),
        decreases all.len() - done,
    {
        assert(all.skip(done)[0] == all[done]);
        let event = next_event(&mut reader);
        proof {
            assert(all.skip(done).skip(1) =~= all.skip(done + 1));
            assert(all.take(done + 1).drop_last() =~= all.take(done));
            assert(all.take(done + 1).last() == all[done]);
            assert(is_last(all[done]) <==> done == all.len() - 1);
            done = done + 1;
        }
        match event {
            None => {
                return None;
            },
            Some((kind, content)) => {
                let plain = if kind == EventKind::Text {
                    unescape_text(content.as_str())
                } else {
                    None
                };
                match rewrite_event(kind, content.as_str(), plain) {
                    Some((m, c)) => {
                        write_event(&mut writer, m, c.as_str());
                    },
                    None => {},
                }
                if kind == EventKind::Eof {
                    ended = true;
                }
            },
        }
    }
    assert(all.take(done) =~= all);
    let bytes = finish_writer(writer);
    proof {
        encode_utf8_valid_utf8(rewritten_text(all));
    }
    match decode_text(bytes) {
        Some(text) => {
            proof {
                lemma_encoding_decides(text@, rewritten_text(all));
            }
            Some(text)
        },
        None => None,
    }
}

/// Types every property of the document `text`; what is no document stays as it is.
pub fn type_document(text: String) -> (r: String)
    ensures
        r@ == typed_document(text@),
        document_root(text@) is Some ==> declaration().is_prefix_of(r@),
{
    match parse_document(text.as_str()) {
        Some(root) => {
            let mut root = root;
            sanitize_element(&mut root, false);
            let bytes = write_document(&root);
            let ghost document = document_text(element_view(root));
            proof {
                encode_utf8_valid_utf8(document);
            }
            match decode_text(bytes) {
                Some(typed) => {
                    proof {
                        lemma_encoding_decides(typed@, document);
                        let rest = choose|rest: Seq<char>|
                            encode_utf8(document) == #[trigger] encode_utf8(declaration() + rest);
                        lemma_encoding_decides(document, declaration() + rest);
                    }
                    typed
                },
                None => text,
            }
        },
        None => text,
    }
}

/// Escapes every `?>` but the one that closes the first XML declaration.
pub fn escape_strays(text: &str) -> (r: String)
    ensures
        r@ == strays_escaped(text@),
{
    proof {
        reveal_strlit("<?xml");
        reveal_strlit("?>");
    }
    let s = chars_of(text);
    let end = match find_from(&s, &chars_of("<?xml"), 0) {
        Some(start) => find_from(&s, &chars_of("?>"), start),
        None => None,
    };
    match end {
        Some(end) => {
            proof {
                lemma_declaration_end(s@);
                assert(declaration_end(s@) == Some(end as int));
            }
            let length: usize = s.len();
            assert(end + 2 <= length);
            let mut out = replace_text(&part_of(&s, 0, end), "?>", "?&gt;");
            push_all(&mut out, &chars_of("?>"));
            push_all(&mut out, &replace_text(&part_of(&s, end + 2, length), "?>", "?&gt;"));
            assert(s@.subrange(0, end as int) =~= s@.take(end as int));
            assert(s@.subrange(end + 2, length as int) =~= s@.skip(end + 2));
            string_of(&out)
        },
        None => string_of(&replace_text(&s, "?>", "?&gt;")),
    }
}

/// What sanitizing makes of the document `source`; `None` where its markup is broken.
pub fn sanitized_copy(source: &str) -> (r: Option<String>)
    ensures
        match r {
            Some(t) => {
                &&& sanitized_text(source@) == Some(t@)
                &&& only_declaration_ends(t@)
                &&& document_root(rewritten_text(xml_events(source@))) is Some
                    ==> declaration().is_prefix_of(t@)
            },
            None => sanitized_text(source@) is None,
        },
        forall|a: Seq<char>, m: Seq<char>, b: Seq<char>, event: (EventKind, Seq<char>)| #[trigger]
            is_insertion(source@, a, m, b, event) ==> optional_text(r) == sanitized_text(a + b),
{
    match rewrite_document(source) {
        Some(text) => {
            let typed = type_document(text);
            proof {
                law_no_stray_end_stays(typed@);
                if declaration().is_prefix_of(typed@) {
                    law_declaration_stays(typed@);
                }
            }
            Some(escape_strays(typed.as_str()))
        },
        None => None,
    }
}

/// The document `source` made readable to the decoder; where its markup is broken, `source`. One
/// comment or processing instruction more between markup makes no difference to the outcome.
pub fn sanitize_rbxlx(source: &str) -> (r: String)
    ensures
        r@ == sanitized_or_source(source@),
        sanitized_text(source@) is Some ==> only_declaration_ends(r@),
        sanitized_text(source@) is Some && document_root(rewritten_text(xml_events(source@))) is Some
            ==> declaration().is_prefix_of(r@),
        forall|a: Seq<char>, m: Seq<char>, b: Seq<char>, event: (EventKind, Seq<char>)| #[trigger]
            is_insertion(source@, a, m, b, event) && sanitized_text(source@) is Some ==> r@
                == sanitized_or_source(a + b),
{
    match sanitized_copy(source) {
        Some(text) => text,
        None => copy_of(source),
    }
}

/// Where a declaration is closed, `?>` stands behind the whole of its `<?xml`.
proof fn lemma_declaration_end(s: Seq<char>)
    ensures
        match declaration_end(s) {
            Some(end) => {
                let start = first_from(s, "<?xml"@, 0)->0;
                &&& first_from(s, "<?xml"@, 0) is Some
                &&& 0 <= start
                &&& occurs_at(s, "<?xml"@, start)
                &&& start + 5 <= end
                &&& end + 2 <= s.len()
                &&& occurs_at(s, "?>"@, end)
            },
            None => true,
        },
{
    reveal_strlit("<?xml");
    reveal_strlit("?>");
    lemma_first_from(s, "<?xml"@, 0);
    if let Some(start) = first_from(s, "<?xml"@, 0) {
        lemma_first_from(s, "?>"@, start);
        if let Some(end) = first_from(s, "?>"@, start) {
            let head = s.subrange(start, start + 5);
            let close = s.subrange(end, end + 2);
            assert(head[0] == s[start] && head[1] == s[start + 1] && head[2] == s[start + 2]
                && head[3] == s[start + 3] && head[4] == s[start + 4]);
            assert(close[0] == s[end] && close[1] == s[end + 1]);
        }
    }
}

/// Where every `?>` is escaped, none is left.
proof fn lemma_ends_escaped(s: Seq<char>)
    ensures
        no_pair(ends_escaped(s), '?', '>'),
        s.len() > 0 ==> ends_escaped(s).len() > 0 && ends_escaped(s)[0] == s[0],
{
    reveal_strlit("?>");
    reveal_strlit("?&gt;");
    lemma_replaced_no_pair(s, "?>"@, "?&gt;"@, '?', '>');
}

/// Escaping every `?>` keeps a `<?xml`.
proof fn lemma_declaration_start_stays(s: Seq<char>, at: int) -> (place: int)
    requires
        occurs_at(s, "<?xml"@, at),
    ensures
        occurs_at(ends_escaped(s), "<?xml"@, place),
    decreases s.len(),
{
    reveal_strlit("<?xml");
    reveal_strlit("?>");
    reveal_strlit("?&gt;");
    let head = s.subrange(at, at + 5);
    assert(head[0] == s[at] && head[1] == s[at + 1] && head[2] == s[at + 2] && head[3] == s[at + 3]
        && head[4] == s[at + 4]);
    lemma_occurs_pair(s, "?>"@, 0);
    if at > 0 {
        let step: int = if occurs_at(s, "?>"@, 0) {
            2
        } else {
            1
        };
        assert(s.skip(step).subrange(at - step, at - step + 5) =~= head);
        let place = lemma_declaration_start_stays(s.skip(step), at - step);
        let ahead: int = if occurs_at(s, "?>"@, 0) {
            5
        } else {
            1
        };
        let tail = ends_escaped(s.skip(step));
        assert(ends_escaped(s).subrange(place + ahead, place + ahead + 5) =~= tail.subrange(
            place,
            place + 5,
        ));
        place + ahead
    } else {
        let (s1, s2, s3, s4) = (s.skip(1), s.skip(1).skip(1), s.skip(1).skip(1).skip(1), s.skip(
            1,
        ).skip(1).skip(1).skip(1));
        lemma_occurs_pair(s1, "?>"@, 0);
        lemma_occurs_pair(s2, "?>"@, 0);
        lemma_occurs_pair(s3, "?>"@, 0);
        lemma_occurs_pair(s4, "?>"@, 0);
        assert(s1[0] == s[1] && s1[1] == s[2] && s2[0] == s[2] && s3[0] == s[3] && s4[0] == s[4]);
        let tail = ends_escaped(s4.skip(1));
        assert(ends_escaped(s4) == seq![s[4]] + tail);
        assert(ends_escaped(s3) == seq![s[3]] + ends_escaped(s4));
        assert(ends_escaped(s2) == seq![s[2]] + ends_escaped(s3));
        assert(ends_escaped(s1) == seq![s[1]] + ends_escaped(s2));
        assert(ends_escaped(s) =~= seq![s[0]] + (seq![s[1]] + (seq![s[2]] + (seq![s[3]] + (seq![
            s[4],
        ] + tail)))));
        assert(ends_escaped(s).subrange(0, 5) =~= head);
        0
    }
}

/// After the last pass, the only `?>` that is left closes the first XML declaration.
pub proof fn law_no_stray_end_stays(s: Seq<char>)
    ensures
        only_declaration_ends(strays_escaped(s)),
{
    reveal_strlit("?>");
    lemma_declaration_end(s);
    let r = strays_escaped(s);
    match declaration_end(s) {
        None => {
            lemma_ends_escaped(s);
            lemma_has_pair(r, "?>"@);
        },
        Some(end) => {
            let start = first_from(s, "<?xml"@, 0)->0;
            let left = ends_escaped(s.take(end));
            let right = ends_escaped(s.skip(end + 2));
            lemma_ends_escaped(s.take(end));
            lemma_ends_escaped(s.skip(end + 2));
            assert(s.take(end).subrange(start, start + 5) =~= s.subrange(start, start + 5));
            reveal_strlit("<?xml");
            let place = lemma_declaration_start_stays(s.take(end), start);
            assert(r.subrange(place, place + 5) =~= left.subrange(place, place + 5));
            assert(occurs_at(r, "<?xml"@, place));
            let q = left.len() as int;
            assert forall|at: int| occurs_at(r, "?>"@, at) implies at == q by {
                lemma_occurs_pair(r, "?>"@, at);
                if at + 1 < q {
                    assert(r[at] == left[at] && r[at + 1] == left[at + 1]);
                } else if at >= q + 2 {
                    assert(r[at] == right[at - q - 2] && r[at + 1] == right[at + 1 - q - 2]);
                }
            }
            lemma_occurs_pair(r, "?>"@, q);
            assert(occurs_at(r, "?>"@, q));
            lemma_first_from(r, "<?xml"@, 0);
            let first = first_from(r, "<?xml"@, 0)->0;
            lemma_first_from_is(r, "?>"@, first, q);
        },
    }
}

/// The last pass changes nothing the second time.
pub proof fn law_escaping_strays_is_idempotent(s: Seq<char>)
    ensures
        strays_escaped(strays_escaped(s)) == strays_escaped(s),
{
    law_no_stray_end_stays(s);
    lemma_no_stray_unchanged(strays_escaped(s));
}

/// Where no stray `?>` stands, the last pass changes nothing.
proof fn lemma_no_stray_unchanged(s: Seq<char>)
    requires
        only_declaration_ends(s),
    ensures
        strays_escaped(s) == s,
{
    reveal_strlit("?>");
    lemma_declaration_end(s);
    match declaration_end(s) {
        None => {
            lemma_replaced_unchanged(s, "?>"@, "?&gt;"@);
        },
        Some(end) => {
            let left = s.take(end);
            let right = s.skip(end + 2);
            assert forall|at: int| !occurs_at(left, "?>"@, at) by {
                lemma_occurs_pair(left, "?>"@, at);
                lemma_occurs_pair(s, "?>"@, at);
            }
            assert forall|at: int| !occurs_at(right, "?>"@, at) by {
                lemma_occurs_pair(right, "?>"@, at);
                lemma_occurs_pair(s, "?>"@, at + end + 2);
            }
            lemma_replaced_unchanged(left, "?>"@, "?&gt;"@);
            lemma_replaced_unchanged(right, "?>"@, "?&gt;"@);
            assert(s.subrange(end, end + 2) =~= "?>"@);
            assert(left + "?>"@ + right =~= s);
        },
    }
}

/// A document that starts with an XML declaration keeps it through the last pass.
pub proof fn law_declaration_stays(s: Seq<char>)
    requires
        declaration().is_prefix_of(s),
    ensures
        declaration().is_prefix_of(strays_escaped(s)),
{
    reveal_strlit("?>");
    reveal_strlit("<?xml");
    reveal_strlit("<?xml version=\"1.0\" encoding=\"UTF-8\"?>");
    let d = declaration();
    let end = d.len() - 2;
    assert(s.subrange(0, d.len() as int) =~= d);
    assert forall|i: int| 0 <= i < d.len() implies s[i] == #[trigger] d[i] by {
        assert(s.subrange(0, d.len() as int)[i] == s[i]);
    }
    assert(s.subrange(0, 5) =~= "<?xml"@) by {
        assert(d.subrange(0, 5) =~= "<?xml"@);
        assert(s.subrange(0, 5) =~= d.subrange(0, 5));
    }
    assert(occurs_at(s, "<?xml"@, 0));
    lemma_first_from_is(s, "<?xml"@, 0, 0);
    assert forall|k: int| 0 <= k < end implies !occurs_at(s, "?>"@, k) by {
        lemma_occurs_pair(s, "?>"@, k);
        assert(s[k] == d[k] && s[k + 1] == d[k + 1]);
    }
    lemma_occurs_pair(s, "?>"@, end);
    assert(s[end] == d[end] && s[end + 1] == d[end + 1]);
    lemma_first_from_is(s, "?>"@, 0, end);
    assert(declaration_end(s) == Some(end));
    assert forall|at: int| !occurs_at(s.take(end), "?>"@, at) by {
        lemma_occurs_pair(s.take(end), "?>"@, at);
        lemma_occurs_pair(s, "?>"@, at);
    }
    lemma_replaced_unchanged(s.take(end), "?>"@, "?&gt;"@);
    let r = strays_escaped(s);
    assert(r.subrange(0, d.len() as int) =~= d);
}

/// Comments and processing instructions leave no trace in what is written.
pub proof fn law_dropped_events_leave_no_trace(events: Seq<Option<(EventKind, Seq<char>)>>)
    ensures
        rewritten_text(events) == rewritten_text(
            events.filter(|event: Option<(EventKind, Seq<char>)>| !is_dropped(event)),
        ),
    decreases events.len(),
{
    reveal(Seq::filter);
    if events.len() > 0 {
        law_dropped_events_leave_no_trace(events.drop_last());
        let kept = events.drop_last().filter(
            |event: Option<(EventKind, Seq<char>)>| !is_dropped(event),
        );
        assert(kept.push(events.last()).drop_last() =~= kept);
    }
}

/// Two documents that are read to the end and differ in comments and processing instructions
/// alone are sanitized to the same text.
pub proof fn law_dropped_markup_makes_no_difference(a: Seq<char>, b: Seq<char>)
    requires
        xml_events(a).last() is Some,
        xml_events(b).last() is Some,
        xml_events(a).filter(|event: Option<(EventKind, Seq<char>)>| !is_dropped(event))
            == xml_events(b).filter(|event: Option<(EventKind, Seq<char>)>| !is_dropped(event)),
    ensures
        sanitized_text(a) == sanitized_text(b),
{
    law_dropped_events_leave_no_trace(xml_events(a));
    law_dropped_events_leave_no_trace(xml_events(b));
}

/// One comment or processing instruction more makes no difference to what is written, nor to
/// whether the last event is broken markup.
proof fn lemma_one_more_makes_no_difference(
    events: Seq<Option<(EventKind, Seq<char>)>>,
    others: Seq<Option<(EventKind, Seq<char>)>>,
    at: int,
    event: (EventKind, Seq<char>),
)
    requires
        has_one_more(events, others, at, event),
        is_dropped(Some(event)),
    ensures
        rewritten_text(events) == rewritten_text(others),
        events.last() == others.last(),
    decreases others.len(),
{
    assert(events.last() == others.last());
    let before = others.drop_last();
    if at < before.len() {
        let shorter = before.insert(at, Some(event));
        lemma_one_more_makes_no_difference(shorter, before, at, event);
        assert(events.drop_last() =~= shorter);
    } else {
        assert(events.drop_last() =~= before.push(Some(event)));
        assert(before.push(Some(event)).drop_last() =~= before);
        assert(rewritten_text(before.push(Some(event))) == rewritten_text(before));
    }
}

/// Guarded text holds no delimiter of a processing instruction.
pub proof fn law_guarded_text_has_no_delimiter(text: Seq<char>)
    ensures
        !has_text(guarded(text), "<?"@),
        !has_text(guarded(text), "?>"@),
{
    reveal_strlit("<?");
    reveal_strlit("?>");
    reveal_strlit("&lt;?");
    reveal_strlit("?&gt;");
    let opened = replaced(text, "<?"@, "&lt;?"@);
    lemma_replaced_no_pair(text, "<?"@, "&lt;?"@, '<', '?');
    lemma_replaced_no_pair(opened, "?>"@, "?&gt;"@, '<', '?');
    lemma_replaced_no_pair(opened, "?>"@, "?&gt;"@, '?', '>');
    lemma_has_pair(guarded(text), "<?"@);
    lemma_has_pair(guarded(text), "?>"@);
}

/// Text without delimiters of processing instructions stays as it is.
pub proof fn law_other_text_stays(text: Seq<char>)
    requires
        !has_text(text, "<?"@),
        !has_text(text, "?>"@),
    ensures
        guarded(text) == text,
{
    lemma_replaced_unchanged(text, "<?"@, "&lt;?"@);
    lemma_replaced_unchanged(text, "?>"@, "?&gt;"@);
}

/// What is written of events is one piece per event, in order, and each piece holds the whole
/// content of its event between the delimiters of its kind. A CDATA section is written as its
/// content escaped, and so is a text that holds no delimiter of processing instructions; a text
/// that cannot be unescaped is written as it is; and for a comment, a processing instruction,
/// the end and broken markup nothing is written.
pub proof fn law_events_are_written_one_by_one(
    events: Seq<Option<(EventKind, Seq<char>)>>,
    kind: EventKind,
    content: Seq<char>,
)
    ensures
        rewritten_text(Seq::<Option<(EventKind, Seq<char>)>>::empty()) == Seq::<char>::empty(),
        rewritten_text(events.push(None)) == rewritten_text(events),
        ({
            let before = rewritten_text(events);
            let after = rewritten_text(events.push(Some((kind, content))));
            match kind {
                EventKind::Start => after == before + ("<"@ + content + ">"@),
                EventKind::End => after == before + ("</"@ + content + ">"@),
                EventKind::Empty => after == before + ("<"@ + content + "/>"@),
                EventKind::CData => after == before + escaped(content),
                EventKind::Text => match unescaped(content) {
                    Some(text) => {
                        &&& after == before + escaped(guarded(text))
                        &&& !has_text(text, "<?"@) && !has_text(text, "?>"@) ==> after == before
                            + escaped(text)
                    },
                    None => after == before + content,
                },
                EventKind::Decl => after == before + ("<?"@ + content + "?>"@),
                EventKind::DocType => after == before + ("<!DOCTYPE "@ + content + ">"@),
                EventKind::Comment => after == before,
                EventKind::Instruction => after == before,
                EventKind::Eof => after == before,
            }
        }),
{
    assert(events.push(None).drop_last() =~= events);
    assert(events.push(Some((kind, content))).drop_last() =~= events);
    if let Some(text) = unescaped(content) {
        if !has_text(text, "<?"@) && !has_text(text, "?>"@) {
            law_other_text_stays(text);
        }
    }
}

/// What is written of a list of events and another behind it is what is written of each.
pub proof fn law_writing_adds_up(
    a: Seq<Option<(EventKind, Seq<char>)>>,
    b: Seq<Option<(EventKind, Seq<char>)>>,
)
    ensures
        rewritten_text(a + b) == rewritten_text(a) + rewritten_text(b),
    decreases b.len(),
{
    if b.len() > 0 {
        law_writing_adds_up(a, b.drop_last());
        assert((a + b).drop_last() =~= a + b.drop_last());
        assert((a + b).last() == b.last());
        let (x, y) = (rewritten_text(a), rewritten_text(b.drop_last()));
        assert(rewritten_text(a + b) =~= x + rewritten_text(b)) by {
            if let Some((kind, content)) = b.last() {
                if let Some((m, c)) = rewritten(kind, content, unescaped(content)) {
                    assert((x + y) + markup(m, c) =~= x + (y + markup(m, c)));
                }
            }
        }
    } else {
        assert(a + b =~= a);
        assert(rewritten_text(a) + rewritten_text(b) =~= rewritten_text(a));
    }
}

/// The delimiters of processing instructions are guarded one by one: `<?` becomes `&lt;?`, `?>`
/// becomes `?&gt;`, and every other character stays.
pub proof fn law_delimiters_are_guarded_one_by_one(c: char)
    ensures
        guarded(Seq::<char>::empty()) == Seq::<char>::empty(),
        guarded(seq![c]) == seq![c],
        guarded("<?"@) == "&lt;?"@,
        guarded("?>"@) == "?&gt;"@,
        guarded("<?"@ + ">"@) == "&lt;?"@ + "&gt;"@,
{
    reveal_strlit("<?");
    reveal_strlit("?>");
    reveal_strlit(">");
    reveal_strlit("&lt;?");
    reveal_strlit("?&gt;");
    reveal_strlit("&gt;");
    let (open, close, none) = ("<?"@, "?>"@, Seq::<char>::empty());
    lemma_has_pair(seq![c], open);
    lemma_has_pair(seq![c], close);
    law_other_text_stays(seq![c]);
    lemma_has_pair(none, open);
    lemma_has_pair(none, close);
    law_other_text_stays(none);
    // `<?` alone
    assert(none + open + none =~= open);
    law_first_occurrence_is_replaced(none, open, none, "&lt;?"@);
    assert(none + "&lt;?"@ + replaced(none, open, "&lt;?"@) =~= "&lt;?"@);
    lemma_has_pair("&lt;?"@, close);
    lemma_replaced_unchanged("&lt;?"@, close, "?&gt;"@);
    // `?>` alone
    lemma_has_pair(close, open);
    lemma_replaced_unchanged(close, open, "&lt;?"@);
    assert(none + close + none =~= close);
    law_first_occurrence_is_replaced(none, close, none, "?&gt;"@);
    assert(none + "?&gt;"@ + replaced(none, close, "?&gt;"@) =~= "?&gt;"@);
    // the two with one `?` between them
    let both = open + ">"@;
    lemma_has_pair(">"@, open);
    lemma_replaced_unchanged(">"@, open, "&lt;?"@);
    assert(none + open + ">"@ =~= both);
    law_first_occurrence_is_replaced(none, open, ">"@, "&lt;?"@);
    assert(replaced(both, open, "&lt;?"@) =~= "&lt;?"@ + ">"@);
    let head = "&lt;?"@.take(4);
    assert("&lt;?"@ + ">"@ =~= head + close + none);
    assert forall|k: int| 0 <= k < head.len() implies !#[trigger] occurs_at(
        head + close + none,
        close,
        k,
    ) by {
        lemma_occurs_pair(head + close + none, close, k);
    }
    law_first_occurrence_is_replaced(head, close, none, "?&gt;"@);
    assert(head + "?&gt;"@ + replaced(none, close, "?&gt;"@) =~= "&lt;?"@ + "&gt;"@);
}

/// Two texts are guarded each for itself, unless a delimiter lies across the seam.
pub proof fn law_guarding_adds_up(a: Seq<char>, b: Seq<char>)
    requires
        a.len() > 0 && b.len() > 0 ==> !(a.last() == '<' && b[0] == '?') && !(a.last() == '?' && b[0]
            == '>'),
    ensures
        guarded(a + b) == guarded(a) + guarded(b),
{
    reveal_strlit("<?");
    reveal_strlit("?>");
    reveal_strlit("&lt;?");
    reveal_strlit("?&gt;");
    let (x, y) = (replaced(a, "<?"@, "&lt;?"@), replaced(b, "<?"@, "&lt;?"@));
    lemma_replaced_adds_up(a, b, "<?"@, "&lt;?"@);
    lemma_last_stays(a);
    lemma_replaced_no_pair(b, "<?"@, "&lt;?"@, '<', '?');
    lemma_replaced_adds_up(x, y, "?>"@, "?&gt;"@);
}

/// To guard an opening delimiter changes no last character.
proof fn lemma_last_stays(s: Seq<char>)
    ensures
        s.len() > 0 ==> replaced(s, "<?"@, "&lt;?"@).len() > 0 && replaced(
            s,
            "<?"@,
            "&lt;?"@,
        ).last() == s.last(),
        s.len() == 0 ==> replaced(s, "<?"@, "&lt;?"@).len() == 0,
    decreases s.len(),
{
    reveal_strlit("<?");
    reveal_strlit("&lt;?");
    if s.len() > 0 {
        lemma_occurs_pair(s, "<?"@, 0);
        if occurs_at(s, "<?"@, 0) {
            lemma_last_stays(s.skip(2));
        } else {
            lemma_last_stays(s.skip(1));
        }
    }
}

/// To escape every `?>` is to escape the first, and to treat what is behind it alike; a text
/// without one stays.
pub proof fn law_ends_are_escaped_one_by_one(a: Seq<char>, b: Seq<char>)
    ensures
        !has_text(a, "?>"@) ==> ends_escaped(a) == a,
        !has_text(a, "?>"@) ==> ends_escaped(a + "?>"@ + b) == a + "?&gt;"@ + ends_escaped(b),
{
    reveal_strlit("?>");
    if !has_text(a, "?>"@) {
        lemma_replaced_unchanged(a, "?>"@, "?&gt;"@);
        let s = a + "?>"@ + b;
        assert forall|k: int| 0 <= k < a.len() implies !#[trigger] occurs_at(s, "?>"@, k) by {
            lemma_occurs_pair(s, "?>"@, k);
            lemma_occurs_pair(a, "?>"@, k);
            assert(!occurs_at(a, "?>"@, k));
        }
        law_first_occurrence_is_replaced(a, "?>"@, b, "?&gt;"@);
    }
}

/// Without a closed XML declaration, the last pass escapes every `?>`. With one, it keeps the
/// declaration as it is, and escapes every `?>` before and behind it.
pub proof fn law_declaration_is_kept_and_strays_are_escaped(
    a: Seq<char>,
    d: Seq<char>,
    b: Seq<char>,
)
    ensures
        !has_text(a, "<?xml"@) ==> strays_escaped(a) == ends_escaped(a),
        (forall|k: int| 0 <= k < a.len() ==> !#[trigger] occurs_at(a + "<?xml"@, "<?xml"@, k))
            && !has_text(d, "?>"@) ==> strays_escaped(a + "<?xml"@ + d + "?>"@ + b) == ends_escaped(
            a,
        ) + "<?xml"@ + d + "?>"@ + ends_escaped(b),
        !has_text(a, "?>"@) ==> strays_escaped(a) == a,
{
    reveal_strlit("<?xml");
    reveal_strlit("?>");
    reveal_strlit("?&gt;");
    if !has_text(a, "<?xml"@) {
        lemma_first_from(a, "<?xml"@, 0);
    }
    if !has_text(a, "?>"@) {
        lemma_no_stray_unchanged(a);
    }
    if (forall|k: int| 0 <= k < a.len() ==> !#[trigger] occurs_at(a + "<?xml"@, "<?xml"@, k))
        && !has_text(d, "?>"@) {
        let s = a + "<?xml"@ + d + "?>"@ + b;
        let start = a.len() as int;
        let end = a.len() + 5 + d.len() as int;
        assert(s.subrange(start, start + 5) =~= "<?xml"@);
        assert forall|k: int| 0 <= k < start implies !occurs_at(s, "<?xml"@, k) by {
            assert(!occurs_at(a + "<?xml"@, "<?xml"@, k));
            if occurs_at(s, "<?xml"@, k) {
                assert(s.subrange(k, k + 5) =~= (a + "<?xml"@).subrange(k, k + 5));
            }
        }
        lemma_first_from_is(s, "<?xml"@, 0, start);
        assert(s.subrange(end, end + 2) =~= "?>"@);
        assert forall|k: int| start <= k < end implies !occurs_at(s, "?>"@, k) by {
            lemma_occurs_pair(s, "?>"@, k);
            if k < start + 5 {
                assert(s[k] == "<?xml"@[k - start]);
                if k < start + 4 {
                    assert(s[k + 1] == "<?xml"@[k + 1 - start]);
                }
            } else {
                let i = k - start - 5;
                lemma_occurs_pair(d, "?>"@, i);
                assert(!occurs_at(d, "?>"@, i));
                assert(s[k] == d[i]);
                if i + 1 < d.len() {
                    assert(s[k + 1] == d[i + 1]);
                } else {
                    assert(s[k + 1] == '?');
                }
            }
        }
        lemma_first_from_is(s, "?>"@, start, end);
        assert(s.take(end) =~= a + ("<?xml"@ + d));
        assert(s.skip(end + 2) =~= b);
        let decl = "<?xml"@ + d;
        lemma_replaced_adds_up(a, decl, "?>"@, "?&gt;"@);
        assert forall|k: int| !occurs_at(decl, "?>"@, k) by {
            lemma_occurs_pair(decl, "?>"@, k);
            lemma_occurs_pair(s, "?>"@, k + start);
            if 0 <= k < decl.len() - 1 {
                assert(s[k + start] == decl[k] && s[k + 1 + start] == decl[k + 1]);
                assert(!occurs_at(s, "?>"@, k + start));
            }
        }
        lemma_replaced_unchanged(decl, "?>"@, "?&gt;"@);
        assert(ends_escaped(a) + decl + "?>"@ + ends_escaped(b) =~= ends_escaped(a) + "<?xml"@ + d
            + "?>"@ + ends_escaped(b));
    }
}

/// Sanitizing is three passes, one after another: broken markup gives nothing; otherwise the text
/// that is written of the events is typed as a document where it is one, and stays where it is
/// none, and the strays in that are escaped.
pub proof fn law_sanitizing_is_three_passes(source: Seq<char>)
    ensures
        xml_events(source).last() is None ==> sanitized_text(source) is None
            && sanitized_or_source(source) == source,
        xml_events(source).last() is Some ==> {
            let text = rewritten_text(xml_events(source));
            &&& sanitized_text(source) == Some(sanitized_or_source(source))
            &&& match document_root(text) {
                Some(root) => sanitized_or_source(source) == strays_escaped(
                    document_text(sanitized(root)),
                ),
                None => sanitized_or_source(source) == strays_escaped(text),
            }
        },
{
}

/// A document without a `Properties` element in it is written as it was parsed.
pub proof fn law_documents_without_properties_stay(text: Seq<char>)
    ensures
        match document_root(text) {
            Some(root) => is_without_properties(root) ==> typed_document(text) == document_text(
                root,
            ),
            None => typed_document(text) == text,
        },
{
    if let Some(root) = document_root(text) {
        if is_without_properties(root) {
            law_nothing_changes_without_properties(root);
        }
    }
}

/// What an event's content stands for counts for a text alone, and there it alone counts: what
/// is written for the text is its meaning, guarded and escaped.
pub proof fn law_meaning_counts_for_text_alone(
    kind: EventKind,
    content: Seq<char>,
    other: Seq<char>,
    plain: Seq<char>,
)
    ensures
        kind != EventKind::Text ==> rewritten(kind, content, Some(plain)) == rewritten(
            kind,
            content,
            None,
        ),
        rewritten(EventKind::Text, content, Some(plain)) == rewritten(
            EventKind::Text,
            other,
            Some(plain),
        ),
        match rewritten(EventKind::Text, content, Some(plain)) {
            Some((m, c)) => markup(m, c) == escaped(guarded(plain)),
            None => false,
        },
        match rewritten(EventKind::Text, content, None) {
            Some((m, c)) => markup(m, c) == content,
            None => false,
        },
{
}

/// A declaration that is not closed protects no `?>` before it.
pub proof fn law_open_declaration_protects_nothing(a: Seq<char>, d: Seq<char>)
    requires
        forall|k: int| 0 <= k < a.len() ==> !#[trigger] occurs_at(a + "<?xml"@, "<?xml"@, k),
        !has_text(d, "?>"@),
    ensures
        strays_escaped(a + "<?xml"@ + d) == ends_escaped(a) + "<?xml"@ + d,
{
    reveal_strlit("<?xml");
    reveal_strlit("?>");
    let s = a + "<?xml"@ + d;
    let start = a.len() as int;
    let decl = "<?xml"@ + d;
    assert(s =~= a + decl);
    assert(s.subrange(start, start + 5) =~= "<?xml"@);
    assert forall|k: int| 0 <= k < start implies !occurs_at(s, "<?xml"@, k) by {
        assert(!occurs_at(a + "<?xml"@, "<?xml"@, k));
        if occurs_at(s, "<?xml"@, k) {
            assert(s.subrange(k, k + 5) =~= (a + "<?xml"@).subrange(k, k + 5));
        }
    }
    lemma_first_from_is(s, "<?xml"@, 0, start);
    assert forall|k: int| !occurs_at(decl, "?>"@, k) by {
        lemma_occurs_pair(decl, "?>"@, k);
        lemma_occurs_pair(d, "?>"@, k - 5);
        assert(!occurs_at(d, "?>"@, k - 5));
        if 0 <= k < 5 {
            assert(decl[k] == "<?xml"@[k]);
            if k < 4 {
                assert(decl[k + 1] == "<?xml"@[k + 1]);
            }
        } else if 5 <= k < decl.len() - 1 {
            assert(decl[k] == d[k - 5] && decl[k + 1] == d[k - 4]);
        }
    }
    assert forall|k: int| start <= k implies !occurs_at(s, "?>"@, k) by {
        lemma_occurs_pair(s, "?>"@, k);
        lemma_occurs_pair(decl, "?>"@, k - start);
        assert(!occurs_at(decl, "?>"@, k - start));
        if k < s.len() - 1 {
            assert(s[k] == decl[k - start] && s[k + 1] == decl[k + 1 - start]);
        }
    }
    lemma_first_from(s, "?>"@, start);
    lemma_replaced_unchanged(decl, "?>"@, "?&gt;"@);
    lemma_replaced_adds_up(a, decl, "?>"@, "?&gt;"@);
    assert(ends_escaped(a) + decl =~= ends_escaped(a) + "<?xml"@ + d);
}

} // verus!
