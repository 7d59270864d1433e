//! Reading XML as a sequence of events.
//!
//! The reading itself is done by the `quick_xml` crate. What this module adds
//! is a plain form of its events, so that the parsers of the two track formats
//! can be stated and proved over plain values.

use vstd::prelude::*;

verus! {

/// The byte `&`, which begins an escaped character in XML text.
pub const AMPERSAND: u8 = 0x26;

/// A `quick_xml::Reader` over a document held in memory. All that the proofs
/// see of it is the sequence of events that it has yet to give.
#[verifier::external_body]
pub struct EventReader<'a> {
    inner: quick_xml::Reader<&'a [u8]>,
}

/// One attribute of a tag, as it is written: its value is still escaped.
#[derive(Debug, Clone)]
pub struct Attribute {
    pub key: Vec<u8>,
    pub value: Vec<u8>,
}

/// What the reader found next in a document.
#[derive(Debug, Clone)]
pub enum XmlEvent {
    /// An opening tag that is not closed in itself: its name, and its whole
    /// content, which begins with the name and holds the attributes.
    Start { name: Vec<u8>, tag: Vec<u8> },
    /// A closing tag and its name.
    End { name: Vec<u8> },
    /// Text between tags, still escaped.
    Text { raw: Vec<u8> },
    /// The end of the document. A reader that has failed reports it too.
    Eof,
    /// Anything else: a tag closed in itself, a comment, a declaration, or a
    /// failure to read on.
    Other,
}

/// An event as the proofs see it: the bytes that it holds.
pub enum Event {
    Start { name: Seq<u8>, tag: Seq<u8> },
    End { name: Seq<u8> },
    Text { raw: Seq<u8> },
    Eof,
    Other,
}

impl View for XmlEvent {
    type V = Event;

    open spec fn view(&self) -> Event {
        match *self {
            XmlEvent::Start { name, tag } => Event::Start { name: name@, tag: tag@ },
            XmlEvent::End { name } => Event::End { name: name@ },
            XmlEvent::Text { raw } => Event::Text { raw: raw@ },
            XmlEvent::Eof => Event::Eof,
            XmlEvent::Other => Event::Other,
        }
    }
}

/// The events that `quick_xml` reads from a document, from its start up to
/// the end of the document or to the first failure, which comes last as
/// `Other`. The event `Eof` is not among them.
pub uninterp spec fn document_events(xml: Seq<char>) -> Seq<Event>;

/// The events that a reader has yet to give before it reports the end.
pub uninterp spec fn pending_events(reader: EventReader) -> Seq<Event>;

/// The attributes that `quick_xml` reads from the content of a tag whose name
/// is `name_len` bytes long: key and escaped value of each, up to the first
/// attribute that is malformed or repeated.
pub uninterp spec fn attributes_of_tag(tag: Seq<u8>, name_len: nat) -> Seq<(Seq<u8>, Seq<u8>)>;

/// The text that `quick_xml` makes of escaped text, or `None` where an escape
/// in it is malformed or unknown.
pub uninterp spec fn unescaped_text(raw: Seq<u8>) -> Option<Seq<u8>>;

/// The keys and values of a list of attributes.
pub open spec fn attribute_pairs(attributes: Seq<Attribute>) -> Seq<(Seq<u8>, Seq<u8>)> {
    attributes.map_values(|a: Attribute| (a.key@, a.value@))
}

/// `quick_xml::Reader::from_str`: a reader at the start of the document. The
/// claim: the events that it will give are a function of the document.
#[verifier::external_body]
pub(crate) fn open_reader<'a>(xml: &'a str) -> (reader: EventReader<'a>)
    ensures
        pending_events(reader) == document_events(xml@),
{
    EventReader { inner: quick_xml::Reader::from_str(xml) }
}

/// `quick_xml::Reader::read_event`, its result in plain form. The claims: the
/// reader gives its pending events one by one, none of them `Eof`, and there
/// are finitely many, since each takes at least one byte of the document and
/// the reader gives up at its first failure; when none is left it reports
/// `Eof`, and goes on doing so.
#[verifier::external_body]
pub(crate) fn next_event(reader: &mut EventReader) -> (event: XmlEvent)
    ensures
        pending_events(*old(reader)).len() == 0 ==> event is Eof && pending_events(*final(reader))
            == pending_events(*old(reader)),
        pending_events(*old(reader)).len() > 0 ==> !(event is Eof) && event@ == pending_events(
            *old(reader),
        )[0] && pending_events(*final(reader)) == pending_events(*old(reader)).skip(1),
{
    let mut buf = Vec::new();
    match reader.inner.read_event(&mut buf) {
        Ok(quick_xml::events::Event::Start(e)) => XmlEvent::Start {
            name: e.name().to_vec(),
            tag: e.to_vec(),
        },
        Ok(quick_xml::events::Event::End(e)) => XmlEvent::End { name: e.name().to_vec() },
        Ok(quick_xml::events::Event::Text(e)) => XmlEvent::Text { raw: e.escaped().to_vec() },
        Ok(quick_xml::events::Event::Eof) => XmlEvent::Eof,
        _ => XmlEvent::Other,
    }
}

/// `quick_xml::events::attributes::Attributes`, the iterator over the
/// attributes of a tag, run to its end. The claim: the well-formed attributes
/// it yields are a function of the tag's content and of the length of its name.
#[verifier::external_body]
pub(crate) fn tag_attributes(tag: &[u8], name_len: usize) -> (attributes: Vec<Attribute>)
    ensures
        attribute_pairs(attributes@) == attributes_of_tag(tag@, name_len as nat),
{
    quick_xml::events::attributes::Attributes::new(tag, name_len)
        .filter_map(|a| a.ok())
        .map(|a| Attribute { key: a.key.to_vec(), value: a.value.to_vec() })
        .collect()
}

/// `quick_xml::events::BytesText::unescaped`. The claims: the result is a
/// function of the escaped text, and text that holds no `&` is returned as it
/// is.
#[verifier::external_body]
pub(crate) fn unescape_text(raw: &[u8]) -> (text: Option<Vec<u8>>)
    ensures
        match text {
            Some(bytes) => unescaped_text(raw@) == Some(bytes@),
            None => unescaped_text(raw@) is None,
        },
        !raw@.contains(AMPERSAND) ==> text is Some && text->0@ == raw@,
{
    quick_xml::events::BytesText::from_escaped(raw).unescaped().ok().map(|bytes| bytes.into_owned())
}

/// Whether two byte strings are equal.
pub fn bytes_equal(a: &[u8], b: &[u8]) -> (equal: bool)
    ensures
        equal == (a@ == b@),
{
    if a.len() != b.len() {
        return false;
    }
    let n = a.len();
    let mut i: usize = 0;
    while i < n
        invariant
            i <= n,
            n == a@.len(),
            n == b@.len(),
            forall|j: int| 0 <= j < i ==> a@[j] == b@[j],
        decreases n - i,
    {
        if a[i] != b[i] {
            return false;
        }
        i += 1;
    }
    assert(a@ =~= b@);
    true
}

} // verus!
