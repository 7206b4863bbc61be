//! XML events as plain values.
//!
//! `quick_xml` tokenizes package and content documents; each event it
//! reports is handed to the library as an [`XmlEvent`], so that the decisions
//! taken on tags, attributes and text are verified code.

use vstd::prelude::*;
use vstd::utf8::{decode_utf8, valid_utf8};
use quick_xml::events::{BytesStart, Event};
use quick_xml::name::{Namespace, ResolveResult};
use quick_xml::reader::NsReader;
use quick_xml::Reader;

verus! {

/// `quick_xml::Reader`, the pull parser over a byte slice.
#[verifier::external_type_specification]
#[verifier::external_body]
#[verifier::reject_recursive_types(R)]
pub struct ExXmlReader<R>(Reader<R>);

/// `quick_xml::reader::NsReader`, the pull parser that resolves namespaces.
#[verifier::external_type_specification]
#[verifier::external_body]
#[verifier::reject_recursive_types(R)]
pub struct ExNsXmlReader<R>(NsReader<R>);

/// `quick_xml::events::BytesStart`, a start or empty tag.
#[verifier::external_type_specification]
#[verifier::external_body]
pub struct ExXmlBytesStart<'a>(BytesStart<'a>);

/// `quick_xml::events::Event`, one event of a reader.
#[verifier::external_type_specification]
#[verifier::external_body]
pub struct ExXmlQuickEvent<'a>(Event<'a>);

/// One attribute of a tag: its qualified name, and its unescaped value when
/// the value unescapes.
#[derive(Debug, Clone)]
pub struct XmlAttribute {
    pub key: Vec<u8>,
    pub value: Option<String>,
}

/// A start or empty tag: its qualified name and its attributes in source
/// order, a malformed attribute held as `None`.
#[derive(Debug, Clone)]
pub struct XmlTag {
    pub name: Vec<u8>,
    pub attributes: Vec<Option<XmlAttribute>>,
}

/// One event of the XML reader.
#[derive(Debug)]
pub enum XmlEvent {
    /// `<name ...>`.
    Start(XmlTag),
    /// `<name .../>`.
    Empty(XmlTag),
    /// `</name>`, with the qualified name.
    End(Vec<u8>),
    /// Character data, unescaped, or the message of the unescaping error.
    Text(Result<String, String>),
    /// The end of the input.
    Eof,
    /// A comment, a declaration, CDATA or a processing instruction.
    Other,
}

/// An attribute as mathematical values.
pub struct XmlAttributeView {
    pub key: Seq<u8>,
    pub value: Option<Seq<char>>,
}

/// A tag as mathematical values.
pub struct XmlTagView {
    pub name: Seq<u8>,
    pub attributes: Seq<Option<XmlAttributeView>>,
}

/// An event as mathematical values.
pub enum XmlEventView {
    Start(XmlTagView),
    Empty(XmlTagView),
    End(Seq<u8>),
    Text(Result<Seq<char>, Seq<char>>),
    Eof,
    Other,
}

impl View for XmlAttribute {
    type V = XmlAttributeView;

    open spec fn view(&self) -> XmlAttributeView {
        XmlAttributeView {
            key: self.key@,
            value: match self.value {
                Some(v) => Some(v@),
                None => None,
            },
        }
    }
}

/// The view of an optional attribute.
pub open spec fn attribute_view(a: Option<XmlAttribute>) -> Option<XmlAttributeView> {
    match a {
        Some(x) => Some(x@),
        None => None,
    }
}

impl View for XmlTag {
    type V = XmlTagView;

    open spec fn view(&self) -> XmlTagView {
        XmlTagView { name: self.name@, attributes: self.attributes@.map_values(|a: Option<XmlAttribute>| attribute_view(a)) }
    }
}

impl View for XmlEvent {
    type V = XmlEventView;

    open spec fn view(&self) -> XmlEventView {
        match self {
            XmlEvent::Start(t) => XmlEventView::Start(t@),
            XmlEvent::Empty(t) => XmlEventView::Empty(t@),
            XmlEvent::End(n) => XmlEventView::End(n@),
            XmlEvent::Text(t) => XmlEventView::Text(
                match t {
                    Ok(v) => Ok(v@),
                    Err(m) => Err(m@),
                },
            ),
            XmlEvent::Eof => XmlEventView::Eof,
            XmlEvent::Other => XmlEventView::Other,
        }
    }
}

/// The event that `quick_xml`'s `Reader` reports as its `index`-th (from 0)
/// on the bytes, its text trimmed when `trim`, or the message of its error.
pub uninterp spec fn xml_event_at(input: Seq<u8>, trim: bool, index: nat) -> Result<XmlEventView, Seq<char>>;

/// The event that `quick_xml`'s `NsReader` reports as its `index`-th (from 0)
/// on the bytes, with the namespace URI its name is bound to, or the message
/// of its error.
pub uninterp spec fn resolved_event_at(input: Seq<u8>, index: nat) -> Result<(Option<Seq<u8>>, XmlEventView), Seq<char>>;

/// The text of a name's bytes, or the empty text when they are not UTF-8.
pub open spec fn name_text(name: Seq<u8>) -> Seq<char> {
    if valid_utf8(name) {
        decode_utf8(name)
    } else {
        Seq::empty()
    }
}

/// The events of a reader over bytes, and how many it has reported.
pub struct XmlEvents<'a> {
    reader: Reader<&'a [u8]>,
    input: Ghost<Seq<u8>>,
    trim: Ghost<bool>,
    count: Ghost<nat>,
}

impl<'a> XmlEvents<'a> {
    /// The bytes being read.
    pub closed spec fn input(&self) -> Seq<u8> {
        self.input@
    }

    /// Whether text is trimmed.
    pub closed spec fn trims(&self) -> bool {
        self.trim@
    }

    /// How many events have been reported.
    pub closed spec fn count(&self) -> nat {
        self.count@
    }

    /// A reader over the bytes, its text trimmed when `trim`.
    pub fn new(bytes: &'a [u8], trim: bool) -> (r: XmlEvents<'a>)
        ensures
            r.input() == bytes@,
            r.trims() == trim,
            r.count() == 0,
    {
        let mut reader = xml_reader(bytes);
        if trim {
            trim_xml_text(&mut reader);
        }
        XmlEvents { reader, input: Ghost(bytes@), trim: Ghost(trim), count: Ghost(0) }
    }

    /// `Reader::read_event`: the next event, or the reader error's message.
    /// The contract claims that it is the event that the name gives for the
    /// bytes, the trimming and the number of events already reported.
    #[verifier::external_body]
    pub fn next(&mut self) -> (r: Result<XmlEvent, String>)
        ensures
            final(self).input() == old(self).input(),
            final(self).trims() == old(self).trims(),
            final(self).count() == old(self).count() + 1,
            match r {
                Ok(e) => Ok::<XmlEventView, Seq<char>>(e@),
                Err(m) => Err(m@),
            } == xml_event_at(old(self).input(), old(self).trims(), old(self).count()),
    {
        self.reader.read_event().map(plain_xml_event).map_err(|error| error.to_string())
    }
}

/// The events of a namespace-resolving reader over bytes, and how many it
/// has reported.
pub struct ResolvedXmlEvents<'a> {
    reader: NsReader<&'a [u8]>,
    input: Ghost<Seq<u8>>,
    count: Ghost<nat>,
}

impl<'a> ResolvedXmlEvents<'a> {
    /// The bytes being read.
    pub closed spec fn input(&self) -> Seq<u8> {
        self.input@
    }

    /// How many events have been reported.
    pub closed spec fn count(&self) -> nat {
        self.count@
    }

    /// A namespace-resolving reader over the bytes.
    pub fn new(bytes: &'a [u8]) -> (r: ResolvedXmlEvents<'a>)
        ensures
            r.input() == bytes@,
            r.count() == 0,
    {
        ResolvedXmlEvents { reader: ns_xml_reader(bytes), input: Ghost(bytes@), count: Ghost(0) }
    }

    /// `NsReader::read_resolved_event`: the next event with the namespace
    /// URI that its name is bound to (`None` when unbound or unknown), or the
    /// reader error's message. The contract claims that it is what the name
    /// gives for the bytes and the number of events already reported.
    #[verifier::external_body]
    pub fn next(&mut self) -> (r: Result<(Option<Vec<u8>>, XmlEvent), String>)
        ensures
            final(self).input() == old(self).input(),
            final(self).count() == old(self).count() + 1,
            match r {
                Ok((ns, e)) => Ok::<(Option<Seq<u8>>, XmlEventView), Seq<char>>(
                    (
                        match ns {
                            Some(u) => Some(u@),
                            None => None,
                        },
                        e@,
                    ),
                ),
                Err(m) => Err(m@),
            } == resolved_event_at(old(self).input(), old(self).count()),
    {
        match self.reader.read_resolved_event() {
            Ok((ResolveResult::Bound(Namespace(uri)), event)) => Ok((Some(uri.to_vec()), plain_xml_event(event))),
            Ok((_, event)) => Ok((None, plain_xml_event(event))),
            Err(error) => Err(error.to_string()),
        }
    }
}

/// `quick_xml::Reader::from_reader` over the bytes, default configuration.
#[verifier::external_body]
fn xml_reader<'a>(bytes: &'a [u8]) -> (r: Reader<&'a [u8]>) {
    Reader::from_reader(bytes)
}

/// `Config::trim_text(true)` on the reader's configuration: text events
/// lose their leading and trailing whitespace, and blank ones are skipped.
#[verifier::external_body]
fn trim_xml_text(reader: &mut Reader<&[u8]>) {
    reader.config_mut().trim_text(true);
}

/// `quick_xml::reader::NsReader::from_reader` over the bytes.
#[verifier::external_body]
fn ns_xml_reader<'a>(bytes: &'a [u8]) -> (r: NsReader<&'a [u8]>) {
    NsReader::from_reader(bytes)
}

/// A tag's name and attributes: `BytesStart::name`, and each item of
/// `BytesStart::attributes`, an attribute error as `None` and each value by
/// `Attribute::unescape_value`, `None` where that fails.
#[verifier::external_body]
fn xml_tag(tag: &BytesStart) -> (r: XmlTag) {
    XmlTag {
        name: tag.name().as_ref().to_vec(),
        attributes: tag.attributes().map(|attribute| {
            attribute.ok().map(|attribute| XmlAttribute {
                key: attribute.key.as_ref().to_vec(),
                value: attribute.unescape_value().ok().map(|value| value.into_owned()),
            })
        }).collect(),
    }
}

/// An event of `quick_xml` as a plain value; text by `BytesText::unescape`.
#[verifier::external_body]
fn plain_xml_event(event: Event) -> (r: XmlEvent) {
    match event {
        Event::Start(tag) => XmlEvent::Start(xml_tag(&tag)),
        Event::Empty(tag) => XmlEvent::Empty(xml_tag(&tag)),
        Event::End(tag) => XmlEvent::End(tag.name().as_ref().to_vec()),
        Event::Text(text) => XmlEvent::Text(
            text.unescape().map(|text| text.into_owned()).map_err(|error| error.to_string()),
        ),
        Event::Eof => XmlEvent::Eof,
        _ => XmlEvent::Other,
    }
}

} // verus!
