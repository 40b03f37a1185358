//! An XML document as a list of events, read by `quick_xml`.
use vstd::prelude::*;

use quick_xml::events::{BytesStart, Event};
use quick_xml::Reader;

verus! {

/// An event of an XML document.
#[derive(Debug)]
pub enum XmlEvent {
    /// `<name attribute="value">`
    Start(XmlElement),
    /// `<name attribute="value"/>`
    Empty(XmlElement),
    /// `</name>`
    End(String),
    /// Character data, with white space trimmed and entities resolved.
    Text(String),
    /// A comment, a declaration or another event that carries no data.
    Other,
    /// The document is at its end.
    Eof,
    /// The document is not well-formed: the message says why.
    Failed(String),
}

/// The name and the attributes of a tag.
#[derive(Debug)]
pub struct XmlElement {
    pub name: String,
    pub attributes: Vec<(String, String)>,
}

#[verifier::ext_equal]
pub ghost struct XmlElementView {
    pub name: Seq<char>,
    pub attributes: Seq<(Seq<char>, Seq<char>)>,
}

#[verifier::ext_equal]
pub ghost enum XmlEventView {
    Start(XmlElementView),
    Empty(XmlElementView),
    End(Seq<char>),
    Text(Seq<char>),
    Other,
    Eof,
    Failed(Seq<char>),
}

impl DeepView for XmlElement {
    type V = XmlElementView;

    open spec fn deep_view(&self) -> XmlElementView {
        XmlElementView { name: self.name@, attributes: self.attributes.deep_view() }
    }
}

impl DeepView for XmlEvent {
    type V = XmlEventView;

    open spec fn deep_view(&self) -> XmlEventView {
        match self {
            XmlEvent::Start(e) => XmlEventView::Start(e.deep_view()),
            XmlEvent::Empty(e) => XmlEventView::Empty(e.deep_view()),
            XmlEvent::End(n) => XmlEventView::End(n@),
            XmlEvent::Text(t) => XmlEventView::Text(t@),
            XmlEvent::Other => XmlEventView::Other,
            XmlEvent::Eof => XmlEventView::Eof,
            XmlEvent::Failed(m) => XmlEventView::Failed(m@),
        }
    }
}

/// The event is the last one that is read of a document.
pub open spec fn ends_document(e: XmlEventView) -> bool {
    e is Eof || e is Failed
}

// ── Trusted: quick_xml ──────────────────────────────────────────────────────

/// `quick_xml`'s reader over a byte slice.
#[verifier::external_type_specification]
#[verifier::external_body]
#[verifier::reject_recursive_types(R)]
pub struct ExReader<R>(quick_xml::Reader<R>);

/// `quick_xml`'s start tag.
#[verifier::external_type_specification]
#[verifier::external_body]
pub struct ExBytesStart<'a>(quick_xml::events::BytesStart<'a>);

/// The events of a document with trimmed text, up to and including its end or
/// the first error.
pub uninterp spec fn xml_events(text: Seq<char>) -> Seq<XmlEventView>;

/// The events that a reader hands out from where it stands, up to and including
/// the end of the document or the first error.
pub uninterp spec fn pending_events(reader: Reader<&[u8]>) -> Seq<XmlEventView>;

/// The characters of a tag's name.
pub uninterp spec fn tag_name_chars(tag: BytesStart<'static>) -> Seq<char>;

/// The well-formed attributes of a tag in their order, values unescaped.
pub uninterp spec fn tag_attribute_pairs(tag: BytesStart<'static>) -> Seq<
    (Seq<char>, Seq<char>),
>;

/// What `quick_xml` read: as `XmlEvent`, with the tag not yet taken apart.
enum RawEvent {
    Start(BytesStart<'static>),
    Empty(BytesStart<'static>),
    End(String),
    Text(String),
    Other,
    Eof,
    Failed(String),
}

spec fn tag_view(tag: BytesStart<'static>) -> XmlElementView {
    XmlElementView { name: tag_name_chars(tag), attributes: tag_attribute_pairs(tag) }
}

spec fn raw_view(e: RawEvent) -> XmlEventView {
    match e {
        RawEvent::Start(t) => XmlEventView::Start(tag_view(t)),
        RawEvent::Empty(t) => XmlEventView::Empty(tag_view(t)),
        RawEvent::End(n) => XmlEventView::End(n@),
        RawEvent::Text(t) => XmlEventView::Text(t@),
        RawEvent::Other => XmlEventView::Other,
        RawEvent::Eof => XmlEventView::Eof,
        RawEvent::Failed(m) => XmlEventView::Failed(m@),
    }
}

/// `Reader::from_str` with `trim_text(true)`: the reader starts before the
/// first event of the document, and there is at least the one that ends it.
#[verifier::external_body]
fn open_document(text: &str) -> (r: Reader<&[u8]>)
    ensures
        pending_events(r) == xml_events(text@),
        pending_events(r).len() > 0,
{
    let mut reader = Reader::from_str(text);
    reader.config_mut().trim_text(true);
    reader
}

/// `Reader::read_event` hands out the next event.  Reading a byte slice comes
/// to an end: the last event up to which a document is read is its end or the
/// first error, and no other event is one of these.  Nothing is said of the
/// reader after such an event.
#[verifier::external_body]
fn read_event(reader: &mut Reader<&[u8]>) -> (r: RawEvent)
    requires
        pending_events(*old(reader)).len() > 0,
    ensures
        raw_view(r) == pending_events(*old(reader))[0],
        !ends_document(raw_view(r)) ==> pending_events(*final(reader)) == pending_events(
            *old(reader),
        ).skip(1),
        ends_document(raw_view(r)) <==> pending_events(*old(reader)).len() == 1,
{
    match reader.read_event() {
        Ok(Event::Start(e)) => RawEvent::Start(e.into_owned()),
        Ok(Event::Empty(e)) => RawEvent::Empty(e.into_owned()),
        Ok(Event::End(e)) => {
            RawEvent::End(String::from_utf8_lossy(e.name().as_ref()).into_owned())
        },
        Ok(Event::Text(e)) => RawEvent::Text(e.unescape().unwrap_or_default().into_owned()),
        Ok(Event::Eof) => RawEvent::Eof,
        Ok(_) => RawEvent::Other,
        Err(e) => RawEvent::Failed(e.to_string()),
    }
}

/// `BytesStart::name`: the name of a tag.
#[verifier::external_body]
fn tag_name(tag: &BytesStart<'static>) -> (r: String)
    ensures
        r@ == tag_name_chars(*tag),
{
    String::from_utf8_lossy(tag.name().as_ref()).into_owned()
}

/// `BytesStart::attributes`: the attributes that could be read, with
/// `Attribute::unescape_value` for each value.
#[verifier::external_body]
fn tag_attributes(tag: &BytesStart<'static>) -> (r: Vec<(String, String)>)
    ensures
        r.deep_view() == tag_attribute_pairs(*tag),
{
    tag.attributes().flatten().map(
        |a| (
            String::from_utf8_lossy(a.key.as_ref()).into_owned(),
            a.unescape_value().unwrap_or_default().into_owned(),
        ),
    ).collect()
}

// ── Reading a document ──────────────────────────────────────────────────────

fn take_apart(raw: RawEvent) -> (r: XmlEvent)
    ensures
        r.deep_view() == raw_view(raw),
{
    match raw {
        RawEvent::Start(t) => {
            XmlEvent::Start(XmlElement { name: tag_name(&t), attributes: tag_attributes(&t) })
        },
        RawEvent::Empty(t) => {
            XmlEvent::Empty(XmlElement { name: tag_name(&t), attributes: tag_attributes(&t) })
        },
        RawEvent::End(n) => XmlEvent::End(n),
        RawEvent::Text(t) => XmlEvent::Text(t),
        RawEvent::Other => XmlEvent::Other,
        RawEvent::Eof => XmlEvent::Eof,
        RawEvent::Failed(m) => XmlEvent::Failed(m),
    }
}

/// All events of a document, the last one telling how it ends.
pub fn read_events(text: &str) -> (r: Vec<XmlEvent>)
    ensures
        r.deep_view() == xml_events(text@),
        r@.len() > 0,
        ends_document(r.deep_view().last()),
{
    let mut reader = open_document(text);
    let mut r: Vec<XmlEvent> = Vec::new();
    let ghost all = xml_events(text@);
    let mut done = false;
    assert(r.deep_view() + pending_events(reader) =~= all);
    while !done
        invariant
            !done ==> r.deep_view() + pending_events(reader) == all && pending_events(reader).len()
                > 0,
            done ==> r.deep_view() == all && r@.len() > 0 && ends_document(r.deep_view().last()),
        decreases all.len() - r@.len(),
    {
        let ghost before = r.deep_view();
        let ghost left = pending_events(reader);
        let event = take_apart(read_event(&mut reader));
        done = match event {
            XmlEvent::Eof => true,
            XmlEvent::Failed(_) => true,
            _ => false,
        };
        r.push(event);
        proof {
            assert(r.deep_view() =~= before.push(left[0]));
            assert(r.deep_view() + left.skip(1) =~= before + left);
        }
    }
    r
}

} // verus!
