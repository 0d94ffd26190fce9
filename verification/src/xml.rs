//! XML documents on top of quick-xml.
use quick_xml::events::{BytesDecl, BytesEnd, BytesStart, BytesText, Event};
use quick_xml::writer::Writer;
use vstd::prelude::*;

verus! {

#[verifier::external_type_specification]
#[verifier::external_body]
#[verifier::reject_recursive_types(W)]
pub struct ExWriter<W>(quick_xml::writer::Writer<W>);

/// The text that has been written with an XML writer.
pub uninterp spec fn xml_text(w: quick_xml::writer::Writer<Vec<u8>>) -> Seq<char>;

/// What is written next.
pub enum XmlEvent<'a> {
    /// The declaration, with version and encoding.
    Decl(&'a str, &'a str),
    /// A start tag.
    Start(&'a str),
    /// A start tag with one attribute: the tag's name, the attribute's name and its value.
    StartWith(&'a str, &'a str, &'a str),
    /// Text.
    Text(&'a str),
    /// An end tag.
    End(&'a str),
}

/// What stands for a character in XML text.
pub open spec fn escaped_char(c: char) -> Seq<char> {
    if c == '<' {
        "&lt;"@
    } else if c == '>' {
        "&gt;"@
    } else if c == '&' {
        "&amp;"@
    } else if c == '\'' {
        "&apos;"@
    } else if c == '"' {
        "&quot;"@
    } else {
        seq![c]
    }
}

/// `s` with the characters that have a meaning in XML escaped.
pub open spec fn escaped(s: Seq<char>) -> Seq<char>
    decreases s.len(),
{
    if s.len() == 0 {
        Seq::empty()
    } else {
        escaped(s.drop_last()) + escaped_char(s.last())
    }
}

/// A start tag.
pub open spec fn start_tag(name: Seq<char>) -> Seq<char> {
    "<"@ + name + ">"@
}

/// An end tag.
pub open spec fn end_tag(name: Seq<char>) -> Seq<char> {
    "</"@ + name + ">"@
}

/// The text of an event.
pub open spec fn event_text(e: XmlEvent) -> Seq<char> {
    match e {
        XmlEvent::Decl(version, encoding) => "<?xml version=\""@ + version@ + "\" encoding=\""@
            + encoding@ + "\"?>"@,
        XmlEvent::Start(name) => start_tag(name@),
        XmlEvent::StartWith(name, key, value) => "<"@ + name@ + " "@ + key@ + "=\""@ + escaped(
            value@,
        ) + "\">"@,
        XmlEvent::Text(text) => escaped(text@),
        XmlEvent::End(name) => end_tag(name@),
    }
}

/// Calls `quick_xml::writer::Writer::new` on an empty vector: nothing has been written.
#[verifier::external_body]
fn writer_new() -> (w: Writer<Vec<u8>>)
    ensures
        xml_text(w) == Seq::<char>::empty(),
{
    Writer::new(Vec::new())
}

/// Calls `quick_xml::writer::Writer::write_event`, which appends the text of the event: a
/// declaration, a tag between angle brackets, or text with its special characters escaped.
#[verifier::external_body]
fn write_event(w: &mut Writer<Vec<u8>>, e: XmlEvent<'_>)
    ensures
        xml_text(*final(w)) == xml_text(*old(w)) + event_text(e),
{
    let event = match e {
        XmlEvent::Decl(v, enc) => Event::Decl(BytesDecl::new(v, Some(enc), None)),
        XmlEvent::Start(n) => Event::Start(BytesStart::new(n)),
        XmlEvent::StartWith(n, k, v) => Event::Start(BytesStart::new(n).with_attributes([(k, v)])),
        XmlEvent::Text(t) => Event::Text(BytesText::new(t)),
        XmlEvent::End(n) => Event::End(BytesEnd::new(n)),
    };
    w.write_event(event).unwrap();
}

/// Calls `quick_xml::writer::Writer::into_inner` and hands out what was written as a string.
#[verifier::external_body]
fn writer_finish(w: Writer<Vec<u8>>) -> (r: String)
    ensures
        r@ == xml_text(w),
{
    String::from_utf8(w.into_inner()).unwrap()
}

/// An XML document that is being written.
pub struct XmlDoc {
    writer: Writer<Vec<u8>>,
}

impl View for XmlDoc {
    type V = Seq<char>;

    /// The text so far.
    closed spec fn view(&self) -> Seq<char> {
        xml_text(self.writer)
    }
}

/// The declaration at the start of a document.
pub open spec fn xml_declaration() -> Seq<char> {
    event_text(XmlEvent::Decl("1.0", "UTF-8"))
}

/// An element that holds only text.
pub open spec fn text_element(name: Seq<char>, text: Seq<char>) -> Seq<char> {
    start_tag(name) + escaped(text) + end_tag(name)
}

impl XmlDoc {
    /// Start a document with its declaration.
    pub fn new() -> (r: Self)
        ensures
            r@ == xml_declaration(),
    {
        let mut writer = writer_new();
        write_event(&mut writer, XmlEvent::Decl("1.0", "UTF-8"));
        let r = XmlDoc { writer };
        assert(r@ =~= xml_declaration());
        r
    }

    /// Append an event.
    pub fn event(&mut self, e: XmlEvent<'_>)
        ensures
            final(self)@ == old(self)@ + event_text(e),
    {
        write_event(&mut self.writer, e);
    }

    /// Append a start tag.
    pub fn start(&mut self, name: &str)
        ensures
            final(self)@ == old(self)@ + start_tag(name@),
    {
        self.event(XmlEvent::Start(name));
    }

    /// Append an end tag.
    pub fn end(&mut self, name: &str)
        ensures
            final(self)@ == old(self)@ + end_tag(name@),
    {
        self.event(XmlEvent::End(name));
    }

    /// Append an element that holds only text.
    pub fn element(&mut self, name: &str, text: &str)
        ensures
            final(self)@ == old(self)@ + text_element(name@, text@),
    {
        let ghost before = self@;
        self.start(name);
        self.event(XmlEvent::Text(text));
        self.end(name);
        assert(self@ =~= before + text_element(name@, text@));
    }

    /// The document.
    pub fn finish(self) -> (r: String)
        ensures
            r@ == self@,
    {
        writer_finish(self.writer)
    }
}

/// Escaped text holds no angle bracket and no quote, whatever the text is: it cannot end the
/// element or the attribute that it stands in.
pub proof fn law_escaped_text_holds_no_markup(s: Seq<char>)
    ensures
        !escaped(s).contains('<'),
        !escaped(s).contains('>'),
        !escaped(s).contains('"'),
        !escaped(s).contains('\''),
    decreases s.len(),
{
    if s.len() > 0 {
        let head = escaped(s.drop_last());
        let tail = escaped_char(s.last());
        law_escaped_text_holds_no_markup(s.drop_last());
        reveal_strlit("&lt;");
        reveal_strlit("&gt;");
        reveal_strlit("&amp;");
        reveal_strlit("&apos;");
        reveal_strlit("&quot;");
        assert forall|c: char|
            (c == '<' || c == '>' || c == '"' || c == '\'') implies !#[trigger] (head
            + tail).contains(c) by {
            if (head + tail).contains(c) {
                let all = head + tail;
                let i = choose|i: int| 0 <= i < all.len() && all[i] == c;
                if i < head.len() {
                    assert(head[i] == c);
                    assert(head.contains(c));
                } else {
                    assert(tail[i - head.len()] == c);
                }
            }
        }
    }
}

/// Text without special characters is not changed by escaping, and two texts one behind the other
/// are escaped one behind the other: no character is lost.
pub proof fn law_plain_text_is_not_changed(a: Seq<char>, b: Seq<char>)
    ensures
        escaped(a + b) == escaped(a) + escaped(b),
        !a.contains('<') && !a.contains('>') && !a.contains('&') && !a.contains('\'')
            && !a.contains('"') ==> escaped(a) == a,
        escaped(a).len() >= a.len(),
    decreases a.len() + b.len(),
{
    reveal_strlit("&lt;");
    reveal_strlit("&gt;");
    reveal_strlit("&amp;");
    reveal_strlit("&apos;");
    reveal_strlit("&quot;");
    if b.len() > 0 {
        law_plain_text_is_not_changed(a, b.drop_last());
        assert((a + b).drop_last() =~= a + b.drop_last());
        assert((a + b).last() == b.last());
        assert(escaped(a + b) =~= escaped(a) + escaped(b));
    } else {
        assert(a + b =~= a);
        assert(escaped(a) + escaped(b) =~= escaped(a));
        if a.len() > 0 {
            law_plain_text_is_not_changed(a.drop_last(), b);
            assert(escaped(a) == escaped(a.drop_last()) + escaped_char(a.last()));
            if !a.contains('<') && !a.contains('>') && !a.contains('&') && !a.contains('\'')
                && !a.contains('"') {
                let rest = a.drop_last();
                assert forall|c: char| !a.contains(c) implies !#[trigger] rest.contains(c) by {
                    if rest.contains(c) {
                        let i = choose|i: int| 0 <= i < rest.len() && rest[i] == c;
                        assert(a[i] == c);
                    }
                }
                assert(a.contains(a.last())) by {
                    assert(a[a.len() - 1] == a.last());
                }
                assert(escaped(a) =~= a);
            }
        } else {
            assert(escaped(a) =~= a);
        }
    }
}

} // verus!
