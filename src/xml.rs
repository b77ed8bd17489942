//! Events of an XML document, read with `quick-xml`.
use vstd::prelude::*;
use quick_xml::events::{BytesStart, Event};
use quick_xml::Reader;

verus! {

#[verifier::external_type_specification]
#[verifier::external_body]
#[verifier::reject_recursive_types(R)]
pub struct ExReader<R>(Reader<R>);

#[verifier::external_type_specification]
#[verifier::external_body]
pub struct ExBytesStart<'a>(BytesStart<'a>);

/// An attribute of a tag: its name, and its unescaped value (`None` where the
/// value could not be unescaped).
#[derive(Debug, Clone)]
pub struct XmlAttr {
    pub key: Vec<u8>,
    pub value: Option<String>,
}

/// A start or empty tag: its qualified name and its attributes.
#[derive(Debug, Clone)]
pub struct XmlTag {
    pub name: Vec<u8>,
    pub attrs: Vec<XmlAttr>,
}

/// One event of an XML document.
#[derive(Debug, Clone)]
pub enum XmlEvent {
    /// `<name ...>`
    Start(XmlTag),
    /// `<name .../>`
    Empty(XmlTag),
    /// `</name>`: the qualified name.
    End(Vec<u8>),
    /// Character data, unescaped (`None` where unescaping failed).
    Text(Option<String>),
    /// The end of the document.
    Eof,
    /// The document is not well-formed here.
    Malformed,
    /// Anything else: comments, declarations, CDATA, processing instructions.
    Other,
}

/// Relies on `quick_xml::events::BytesStart::name` and `attributes`: the tag's
/// name and its attributes in order, skipping those that do not parse.
#[verifier::external_body]
fn tag_of(e: &BytesStart) -> XmlTag {
    XmlTag {
        name: e.name().as_ref().to_vec(),
        attrs: e.attributes().flatten().map(
            |a| XmlAttr { key: a.key.as_ref().to_vec(), value: a.unescape_value().ok().map(|v| v.into_owned()) },
        ).collect(),
    }
}

/// Relies on `quick_xml::Reader::read_event`: the next event of the document.
#[verifier::external_body]
fn next_event(reader: &mut Reader<&[u8]>) -> XmlEvent {
    match reader.read_event() {
        Ok(Event::Start(e)) => XmlEvent::Start(tag_of(&e)),
        Ok(Event::Empty(e)) => XmlEvent::Empty(tag_of(&e)),
        Ok(Event::End(e)) => XmlEvent::End(e.name().as_ref().to_vec()),
        Ok(Event::Text(e)) => XmlEvent::Text(e.unescape().ok().map(|t| t.into_owned())),
        Ok(Event::Eof) => XmlEvent::Eof,
        Ok(_) => XmlEvent::Other,
        Err(_) => XmlEvent::Malformed,
    }
}

/// Whether an event ends the reading: the end of the document or an error.
pub open spec fn is_final(ev: XmlEvent) -> bool {
    ev is Eof || ev is Malformed
}

/// The events `quick-xml` reads from `text` (text trimmed when `trim`),
/// up to and including the first end of document or error.
pub uninterp spec fn xml_events(text: Seq<char>, trim: bool) -> Seq<XmlEvent>;

/// Relies on `quick_xml::Reader::from_str`, its `trim_text` setting and
/// `Reader::read_event`: the events of the document in order, ending with
/// the first end of document or error; they depend on the text and the
/// setting alone.
#[verifier::external_body]
pub(crate) fn read_events(text: &str, trim: bool) -> (r: Vec<XmlEvent>)
    ensures
        r@ == xml_events(text@, trim),
        r@.len() >= 1,
        is_final(r@.last()),
        forall|i: int| 0 <= i < r@.len() - 1 ==> !is_final(#[trigger] r@[i]),
{
    let mut reader = Reader::from_str(text);
    reader.config_mut().trim_text(trim);
    let mut events = Vec::new();
    loop {
        let ev = next_event(&mut reader);
        let done = matches!(ev, XmlEvent::Eof | XmlEvent::Malformed);
        events.push(ev);
        if done {
            return events;
        }
    }
}

/// Whether `quick-xml` reads the whole text, untrimmed, without an error.
pub open spec fn well_formed(text: Seq<char>) -> bool {
    xml_events(text, false).last() is Eof
}

/// Whether `quick-xml` reads the whole document without an error.
pub fn quick_xml_validates(xml: &str) -> (r: bool)
    ensures
        r == well_formed(xml@),
{
    let events = read_events(xml, false);
    let n = events.len();
    match &events[n - 1] {
        XmlEvent::Eof => true,
        _ => false,
    }
}

} // verus!
