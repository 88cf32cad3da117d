//! XML as a stream of events: reading it, escaping what it holds, and writing it.

use crate::text::has_text;
use quick_xml::events::{BytesCData, BytesDecl, BytesEnd, BytesStart, BytesText, Event};
use quick_xml::{Reader, Writer};
use vstd::prelude::*;
use vstd::utf8::encode_utf8;

verus! {

/// The reader of a document that is in memory.
#[verifier::external_type_specification]
#[verifier::external_body]
#[verifier::reject_recursive_types(R)]
pub struct ExReader<R>(quick_xml::Reader<R>);

/// The writer of events.
#[verifier::external_type_specification]
#[verifier::external_body]
#[verifier::reject_recursive_types(W)]
pub struct ExWriter<W>(quick_xml::Writer<W>);

/// The kinds of event that a reader tells apart.
#[derive(Clone, Copy, Debug, PartialEq, Eq, Structural)]
pub enum EventKind {
    Start,
    End,
    Empty,
    Text,
    CData,
    Comment,
    Decl,
    Instruction,
    DocType,
    Eof,
}

/// The kinds of event that are written.
#[derive(Clone, Copy, Debug, PartialEq, Eq, Structural)]
pub enum Markup {
    Start,
    End,
    Empty,
    Text,
    Decl,
    DocType,
}

/// Whether an event is the last one of its stream: the end, or `None` for broken markup.
pub open spec fn is_last(event: Option<(EventKind, Seq<char>)>) -> bool {
    match event {
        Some((kind, _)) => kind == EventKind::Eof,
        None => true,
    }
}

/// Whether the events stop where they should: the last one is the only last one.
pub open spec fn stops(events: Seq<Option<(EventKind, Seq<char>)>>) -> bool {
    &&& events.len() > 0
    &&& forall|i: int|
        0 <= i < events.len() ==> (is_last(#[trigger] events[i]) <==> i == events.len() - 1)
}

/// Whether an event is a comment or a processing instruction.
pub open spec fn is_dropped(event: Option<(EventKind, Seq<char>)>) -> bool {
    match event {
        Some((kind, _)) => kind == EventKind::Comment || kind == EventKind::Instruction,
        None => false,
    }
}

/// Whether every `<` in `s` has a `>` somewhere behind it.
pub open spec fn is_closed(s: Seq<char>) -> bool {
    forall|i: int|
        0 <= i < s.len() && #[trigger] s[i] == '<' ==> exists|j: int|
            i < j < s.len() && #[trigger] s[j] == '>'
}

/// Whether what stands between `<?` and `?>` is that of an XML declaration.
pub open spec fn is_declaration_content(s: Seq<char>) -> bool {
    &&& s.len() > 3
    &&& s.take(3) == "xml"@
    &&& s[3] == ' ' || s[3] == '\t' || s[3] == '\n' || s[3] == '\r'
}

/// Whether `m` is one comment or one processing instruction, which is read as `event`.
pub open spec fn is_dropped_markup(m: Seq<char>, event: (EventKind, Seq<char>)) -> bool {
    match event.0 {
        EventKind::Comment => {
            &&& m == "<!--"@ + event.1 + "-->"@
            &&& !has_text(event.1, "-->"@)
        },
        EventKind::Instruction => {
            &&& m == "<?"@ + event.1 + "?>"@
            &&& event.1.len() > 0
            &&& !event.1.contains('>')
            &&& !is_declaration_content(event.1)
        },
        _ => false,
    }
}

/// Whether `source` is `a` and `b` with the comment or processing instruction `m` between them,
/// where `a` ends outside of all markup and `b` starts with markup.
pub open spec fn is_insertion(
    source: Seq<char>,
    a: Seq<char>,
    m: Seq<char>,
    b: Seq<char>,
    event: (EventKind, Seq<char>),
) -> bool {
    &&& source == a + m + b
    &&& is_dropped_markup(m, event)
    &&& is_closed(a)
    &&& xml_events(a).len() > 0
    &&& xml_events(a).last() is Some
    &&& b.len() > 0
    &&& b[0] == '<'
}

/// Whether `events` are `others` with one more event at the place `at`, before the last.
pub open spec fn has_one_more(
    events: Seq<Option<(EventKind, Seq<char>)>>,
    others: Seq<Option<(EventKind, Seq<char>)>>,
    at: int,
    event: (EventKind, Seq<char>),
) -> bool {
    0 <= at < others.len() && events == others.insert(at, Some(event))
}

/// The events of the document `source`, each with what stands between its delimiters, up to
/// the end or the first broken markup.
pub uninterp spec fn xml_events(source: Seq<char>) -> Seq<Option<(EventKind, Seq<char>)>>;

/// The events that a reader has yet to give.
pub uninterp spec fn pending_events(reader: Reader<&[u8]>) -> Seq<
    Option<(EventKind, Seq<char>)>,
>;

/// What a writer has written so far.
pub uninterp spec fn written(writer: Writer<Vec<u8>>) -> Seq<char>;

/// The text that stands for the character `c` in escaped text.
pub open spec fn escaped_char(c: char) -> Seq<char> {
    if c == '<' {
        "&lt;"@
    } else if c == '>' {
        "&gt;"@
    } else if c == '&' {
        "&amp;"@
    } else if c == '\'' {
        "&apos;"@
    } else if c == '"' {
        "&quot;"@
    } else {
        seq![c]
    }
}

/// The text `s` with its special characters escaped.
pub open spec fn escaped(s: Seq<char>) -> Seq<char>
    decreases s.len(),
{
    if s.len() == 0 {
        Seq::empty()
    } else {
        escaped(s.drop_last()) + escaped_char(s.last())
    }
}

/// The text that the escaped text `s` stands for, or `None` where an escape in it is broken or
/// unknown.
pub uninterp spec fn unescaped(s: Seq<char>) -> Option<Seq<char>>;

/// An event as it is written down.
pub open spec fn markup(kind: Markup, content: Seq<char>) -> Seq<char> {
    match kind {
        Markup::Start => "<"@ + content + ">"@,
        Markup::End => "</"@ + content + ">"@,
        Markup::Empty => "<"@ + content + "/>"@,
        Markup::Text => content,
        Markup::Decl => "<?"@ + content + "?>"@,
        Markup::DocType => "<!DOCTYPE "@ + content + ">"@,
    }
}

/// `Reader::from_str`, with `Reader::trim_text(false)`: a reader that has all the events of
/// `source` before it. They go by the name `xml_events`; there are finitely many, and the only
/// end or broken markup among them is the last one. A comment or processing instruction that
/// stands between markup, or between text and markup, is one event, and leaves those before and
/// behind it as they are without it.
#[verifier::external_body]
pub(crate) fn open_reader(source: &str) -> (r: Reader<&[u8]>)
    ensures
        pending_events(r) == xml_events(source@),
        stops(pending_events(r)),
        forall|a: Seq<char>, m: Seq<char>, b: Seq<char>, event: (EventKind, Seq<char>)| #[trigger]
            is_insertion(source@, a, m, b, event) ==> has_one_more(
                pending_events(r),
                xml_events(a + b),
                xml_events(a).len() - 1,
                event,
            ),
{
    let mut reader = Reader::from_str(source);
    reader.trim_text(false);
    reader
}

/// `Reader::read_event`: the first event that the reader has yet to give, or `None` where it
/// reports an error.
#[verifier::external_body]
pub(crate) fn next_event(reader: &mut Reader<&[u8]>) -> (r: Option<(EventKind, String)>)
    requires
        pending_events(*old(reader)).len() > 0,
    ensures
        match r {
            Some((kind, content)) => pending_events(*old(reader))[0] == Some((kind, content@)),
            None => pending_events(*old(reader))[0] is None,
        },
        pending_events(*final(reader)) == pending_events(*old(reader)).skip(1),
{
    let event = reader.read_event().ok()?;
    let kind = match &event {
        Event::Start(_) => EventKind::Start,
        Event::End(_) => EventKind::End,
        Event::Empty(_) => EventKind::Empty,
        Event::Text(_) => EventKind::Text,
        Event::CData(_) => EventKind::CData,
        Event::Comment(_) => EventKind::Comment,
        Event::Decl(_) => EventKind::Decl,
        Event::PI(_) => EventKind::Instruction,
        Event::DocType(_) => EventKind::DocType,
        Event::Eof => EventKind::Eof,
    };
    Some((kind, String::from_utf8_lossy(&event).into_owned()))
}

/// `Writer::new` on an empty vector: nothing has been written.
#[verifier::external_body]
pub(crate) fn open_writer() -> (r: Writer<Vec<u8>>)
    ensures
        written(r) == Seq::<char>::empty(),
{
    Writer::new(Vec::new())
}

/// `Writer::write_event`: the event is written behind what was there, its content between the
/// delimiters of its kind. Into a vector that cannot fail.
#[verifier::external_body]
pub(crate) fn write_event(writer: &mut Writer<Vec<u8>>, kind: Markup, content: &str)
    ensures
        written(*final(writer)) == written(*old(writer)) + markup(kind, content@),
{
    let event = match kind {
        Markup::Start => Event::Start(BytesStart::from_content(content, 0)),
        Markup::End => Event::End(BytesEnd::new(content)),
        Markup::Empty => Event::Empty(BytesStart::from_content(content, 0)),
        Markup::Text => Event::Text(BytesText::from_escaped(content)),
        Markup::Decl => Event::Decl(BytesDecl::from_start(BytesStart::from_content(content, 0))),
        Markup::DocType => Event::DocType(BytesText::from_escaped(content)),
    };
    writer.write_event(event).ok();
}

/// `Writer::into_inner`: what was written, as UTF-8.
#[verifier::external_body]
pub(crate) fn finish_writer(writer: Writer<Vec<u8>>) -> (r: Vec<u8>)
    ensures
        r@ == encode_utf8(written(writer)),
{
    writer.into_inner()
}

/// `BytesText::new`: the text with its special characters escaped. Unescaped, that is the text
/// again.
#[verifier::external_body]
pub(crate) fn escape_text(s: &str) -> (r: String)
    ensures
        r@ == escaped(s@),
        unescaped(r@) == Some(s@),
{
    String::from_utf8(BytesText::new(s).into_inner().into_owned()).unwrap()
}

/// `BytesCData::escape`: the content of a CDATA section as escaped text. It cannot fail on a
/// string, which needs no decoding. Unescaped, that is the content again.
#[verifier::external_body]
pub(crate) fn escape_cdata(s: &str) -> (r: String)
    ensures
        r@ == escaped(s@),
        unescaped(r@) == Some(s@),
{
    let text = BytesCData::new(s).escape().unwrap();
    String::from_utf8(text.into_inner().into_owned()).unwrap()
}

/// `BytesText::unescape`: the text that the escaped text stands for, or `None` where it reports
/// an error. Which text that is goes by the name `unescaped`; text without `&` stands for itself.
#[verifier::external_body]
pub(crate) fn unescape_text(s: &str) -> (r: Option<String>)
    ensures
        match r {
            Some(t) => unescaped(s@) == Some(t@),
            None => unescaped(s@) is None,
        },
        !s@.contains('&') ==> match r {
            Some(t) => t@ == s@,
            None => false,
        },
{
    BytesText::from_escaped(s).unescape().ok().map(|t| t.into_owned())
}

/// Text is escaped character by character, and only `<`, `>`, `&`, `'` and `"` become something
/// else.
pub proof fn law_text_is_escaped_by_characters(a: Seq<char>, c: char)
    ensures
        escaped(Seq::<char>::empty()) == Seq::<char>::empty(),
        c == '<' ==> escaped(a.push(c)) == escaped(a) + "&lt;"@,
        c == '>' ==> escaped(a.push(c)) == escaped(a) + "&gt;"@,
        c == '&' ==> escaped(a.push(c)) == escaped(a) + "&amp;"@,
        c == '\'' ==> escaped(a.push(c)) == escaped(a) + "&apos;"@,
        c == '"' ==> escaped(a.push(c)) == escaped(a) + "&quot;"@,
        c != '<' && c != '>' && c != '&' && c != '\'' && c != '"' ==> escaped(a.push(c))
            == escaped(a).push(c),
{
    assert(a.push(c).drop_last() =~= a);
    assert(escaped(a) + seq![c] =~= escaped(a).push(c));
}

/// Two texts escaped are one text escaped.
pub proof fn law_escaping_adds_up(a: Seq<char>, b: Seq<char>)
    ensures
        escaped(a + b) == escaped(a) + escaped(b),
    decreases b.len(),
{
    if b.len() > 0 {
        law_escaping_adds_up(a, b.drop_last());
        assert((a + b).drop_last() =~= a + b.drop_last());
        assert((a + b).last() == b.last());
        assert(escaped(a) + escaped(b) =~= escaped(a) + escaped(b.drop_last()) + escaped_char(
            b.last(),
        ));
    } else {
        assert(a + b =~= a);
        assert(escaped(a) + escaped(b) =~= escaped(a));
    }
}

/// Escaped text holds no character that opens or closes markup, nor a quote.
pub proof fn law_escaped_text_is_no_markup(s: Seq<char>, i: int)
    requires
        0 <= i < escaped(s).len(),
    ensures
        escaped(s)[i] != '<',
        escaped(s)[i] != '>',
        escaped(s)[i] != '\'',
        escaped(s)[i] != '"',
    decreases s.len(),
{
    reveal_strlit("&lt;");
    reveal_strlit("&gt;");
    reveal_strlit("&amp;");
    reveal_strlit("&apos;");
    reveal_strlit("&quot;");
    if s.len() > 0 {
        let before = escaped(s.drop_last());
        if i < before.len() {
            law_escaped_text_is_no_markup(s.drop_last(), i);
        } else {
            assert(escaped(s)[i] == escaped_char(s.last())[i - before.len()]);
        }
    }
}

} // verus!
