//! The XML event stream: the events the parsers work on, and the reading
//! of a document into them by `quick_xml`.

use crate::tei_data::pairs_view;
use quick_xml::events::Event;
use quick_xml::Reader;
use vstd::prelude::*;

verus! {

/// One event of an XML stream, names and values decoded to text.
#[derive(Debug, Clone, PartialEq)]
pub enum XmlEvent {
    /// An opening tag: its local name and its attributes in document order.
    Start { name: String, attrs: Vec<(String, String)> },
    /// A closing tag.
    End { name: String },
    /// A self-closing tag.
    Empty { name: String, attrs: Vec<(String, String)> },
    /// Character data, unescaped.
    Text { content: String },
    /// The end of the stream.
    Eof,
    /// Anything else: a comment, a declaration, a CDATA section.
    Other,
}

/// The mathematical value of an [`XmlEvent`].
pub enum EventModel {
    Start { name: Seq<char>, attrs: Seq<(Seq<char>, Seq<char>)> },
    End { name: Seq<char> },
    Empty { name: Seq<char>, attrs: Seq<(Seq<char>, Seq<char>)> },
    Text { content: Seq<char> },
    Eof,
    Other,
}

impl View for XmlEvent {
    type V = EventModel;

    open spec fn view(&self) -> EventModel {
        match self {
            XmlEvent::Start { name, attrs } => EventModel::Start {
                name: name@,
                attrs: pairs_view(attrs@),
            },
            XmlEvent::End { name } => EventModel::End { name: name@ },
            XmlEvent::Empty { name, attrs } => EventModel::Empty {
                name: name@,
                attrs: pairs_view(attrs@),
            },
            XmlEvent::Text { content } => EventModel::Text { content: content@ },
            XmlEvent::Eof => EventModel::Eof,
            XmlEvent::Other => EventModel::Other,
        }
    }
}

/// The values of a sequence of events, in order.
pub open spec fn events_view(events: Seq<XmlEvent>) -> Seq<EventModel> {
    Seq::new(events.len(), |i: int| events[i]@)
}

/// Why a document could not be read.
#[derive(Debug, Clone, PartialEq)]
pub struct ParseError {
    /// A description of the failure for a human reader.
    pub message: String,
    /// The byte offset in the document at which reading stopped.
    pub offset: usize,
}

/// What one read of a document yields: an event, or the failure that ends
/// the reading.
pub enum Outcome {
    /// The read gave this event.
    Event(EventModel),
    /// The read failed, the reader then standing at this byte offset.
    Failure { offset: nat },
}

/// Whether `outcomes` is a whole reading: events that are not the end of
/// the stream, then either the end of the stream or a failure.
pub open spec fn is_reading(outcomes: Seq<Outcome>) -> bool {
    &&& outcomes.len() > 0
    &&& forall|i: int|
        0 <= i < outcomes.len() - 1 ==> (#[trigger] outcomes[i]) is Event && outcomes[i]
            != Outcome::Event(EventModel::Eof)
    &&& outcomes.last() is Failure || outcomes.last() == Outcome::Event(EventModel::Eof)
}

/// The events of a reading that met no failure.
pub open spec fn events_read(outcomes: Seq<Outcome>) -> Seq<EventModel> {
    Seq::new(outcomes.len(), |i: int| outcomes[i]->Event_0)
}

/// `quick_xml::Reader`, the pull parser; nothing of its inside is known
/// here.
#[verifier::external_type_specification]
#[verifier::external_body]
#[verifier::reject_recursive_types(R)]
pub struct ExReader<R>(Reader<R>);

/// `quick_xml::events::Event`, one event as the reader hands it out;
/// nothing of its inside is known here.
#[verifier::external_type_specification]
#[verifier::external_body]
pub struct ExEvent<'a>(Event<'a>);

/// `quick_xml::Error`, the error of a failed read; nothing of its inside is
/// known here.
#[verifier::external_type_specification]
#[verifier::external_body]
pub struct ExXmlError(quick_xml::Error);

/// What `quick_xml` yields on the document `xml`, read by read from its
/// start up to the end of the stream or the first failure.
pub uninterp spec fn xml_outcomes(xml: Seq<char>) -> Seq<Outcome>;

/// What the reads still to come on `reader` yield, up to the end of the
/// stream or the first failure.
pub uninterp spec fn pending_outcomes(reader: Reader<&[u8]>) -> Seq<Outcome>;

/// The byte offset that `reader` reports.
pub uninterp spec fn reader_offset(reader: Reader<&[u8]>) -> nat;

/// The kind, name, attributes and text of `event`, decoded.
pub uninterp spec fn event_model(event: Event<'_>) -> EventModel;

/// The kinds of event that the parsers tell apart.
#[derive(Clone, Copy, Debug)]
enum EventKind {
    Start,
    End,
    Empty,
    Text,
    Eof,
    Other,
}

/// The kind of the event `m`.
spec fn kind_matches(kind: EventKind, m: EventModel) -> bool {
    match kind {
        EventKind::Start => m is Start,
        EventKind::End => m is End,
        EventKind::Empty => m is Empty,
        EventKind::Text => m is Text,
        EventKind::Eof => m is Eof,
        EventKind::Other => m is Other,
    }
}

/// `Reader::from_str`: a reader at the start of `xml`, with the default
/// configuration. The reads to come on it are those of the document, and
/// they make a whole reading: each read consumes input, and the end of the
/// stream or a failure is the last outcome that is looked at.
#[verifier::external_body]
fn open_reader<'a>(xml: &'a str) -> (reader: Reader<&'a [u8]>)
    ensures
        pending_outcomes(reader) == xml_outcomes(xml@),
        is_reading(pending_outcomes(reader)),
{
    Reader::from_str(xml)
}

/// `Reader::read_event`: takes the next outcome off the reader. It hands
/// out the event of that outcome, or an error where the outcome is a
/// failure, whose offset is the one the reader then reports.
#[verifier::external_body]
fn read_event<'a>(reader: &mut Reader<&'a [u8]>) -> (r: Result<Event<'a>, quick_xml::Error>)
    requires
        pending_outcomes(*old(reader)).len() > 0,
    ensures
        pending_outcomes(*final(reader)) == pending_outcomes(*old(reader)).drop_first(),
        match r {
            Ok(event) => pending_outcomes(*old(reader))[0] == Outcome::Event(event_model(event)),
            Err(_) => pending_outcomes(*old(reader))[0] == (Outcome::Failure {
                offset: reader_offset(*final(reader)),
            }),
        },
{
    reader.read_event()
}

/// `Reader::buffer_position`: the byte offset the reader has reached.
#[verifier::external_body]
fn buffer_position(reader: &Reader<&[u8]>) -> (offset: usize)
    ensures
        offset == reader_offset(*reader),
{
    reader.buffer_position()
}

/// Tells the variants of `Event` apart; every variant that is no tag, text
/// or end of stream counts as `Other`.
#[verifier::external_body]
fn event_kind(event: &Event) -> (kind: EventKind)
    ensures
        kind_matches(kind, event_model(*event)),
{
    match event {
        Event::Start(_) => EventKind::Start,
        Event::End(_) => EventKind::End,
        Event::Empty(_) => EventKind::Empty,
        Event::Text(_) => EventKind::Text,
        Event::Eof => EventKind::Eof,
        _ => EventKind::Other,
    }
}

/// `BytesStart::local_name`: the name of an opening or self-closing tag
/// without its namespace prefix, as text.
#[verifier::external_body]
fn start_name(event: &Event) -> (name: String)
    requires
        event_model(*event) is Start || event_model(*event) is Empty,
    ensures
        event_model(*event) is Start ==> name@ == event_model(*event)->Start_name,
        event_model(*event) is Empty ==> name@ == event_model(*event)->Empty_name,
{
    match event {
        Event::Start(tag) | Event::Empty(tag) => String::from_utf8_lossy(
            tag.local_name().as_ref(),
        ).into_owned(),
        _ => String::new(),
    }
}

/// `BytesStart::attributes`: the well-formed attributes of an opening or
/// self-closing tag in document order, each as its full key and its raw
/// value, as text.
#[verifier::external_body]
fn start_attributes(event: &Event) -> (attrs: Vec<(String, String)>)
    requires
        event_model(*event) is Start || event_model(*event) is Empty,
    ensures
        event_model(*event) is Start ==> pairs_view(attrs@) == event_model(*event)->Start_attrs,
        event_model(*event) is Empty ==> pairs_view(attrs@) == event_model(*event)->Empty_attrs,
{
    match event {
        Event::Start(tag) | Event::Empty(tag) => tag.attributes().flatten().map(
            |a| (
                String::from_utf8_lossy(a.key.as_ref()).into_owned(),
                String::from_utf8_lossy(&a.value).into_owned(),
            ),
        ).collect(),
        _ => Vec::new(),
    }
}

/// `BytesEnd::local_name`: the name of a closing tag without its namespace
/// prefix, as text.
#[verifier::external_body]
fn end_name(event: &Event) -> (name: String)
    requires
        event_model(*event) is End,
    ensures
        name@ == event_model(*event)->End_name,
{
    match event {
        Event::End(tag) => String::from_utf8_lossy(tag.local_name().as_ref()).into_owned(),
        _ => String::new(),
    }
}

/// `BytesText::unescape`: the character data of a text event with its
/// escapes resolved, or no text where they cannot be resolved.
#[verifier::external_body]
fn text_content(event: &Event) -> (content: String)
    requires
        event_model(*event) is Text,
    ensures
        content@ == event_model(*event)->Text_content,
{
    match event {
        Event::Text(text) => text.unescape().unwrap_or_default().into_owned(),
        _ => String::new(),
    }
}

/// The `Debug` form of a `quick_xml::Error`, after the offset at which it
/// arose.
#[verifier::external_body]
fn describe_error(error: &quick_xml::Error, offset: usize) -> (message: String) {
    format!("XML parsing error at position {}: {:?}", offset, error)
}

/// The event `event` with its parts decoded.
fn decode_event(event: &Event) -> (decoded: XmlEvent)
    ensures
        decoded@ == event_model(*event),
{
    match event_kind(event) {
        EventKind::Start => XmlEvent::Start {
            name: start_name(event),
            attrs: start_attributes(event),
        },
        EventKind::End => XmlEvent::End { name: end_name(event) },
        EventKind::Empty => XmlEvent::Empty {
            name: start_name(event),
            attrs: start_attributes(event),
        },
        EventKind::Text => XmlEvent::Text { content: text_content(event) },
        EventKind::Eof => XmlEvent::Eof,
        EventKind::Other => XmlEvent::Other,
    }
}

/// Reads the document `xml` into its events, the end of the stream being
/// the last of them, or reports the failure that stopped the reading.
pub fn tokenize(xml: &str) -> (r: Result<Vec<XmlEvent>, ParseError>)
    ensures
        is_reading(xml_outcomes(xml@)),
        match r {
            Ok(events) => xml_outcomes(xml@).last() is Event && events_view(events@)
                == events_read(xml_outcomes(xml@)),
            Err(e) => xml_outcomes(xml@).last() == (Outcome::Failure { offset: e.offset as nat }),
        },
{
    let mut reader = open_reader(xml);
    let mut events: Vec<XmlEvent> = Vec::new();
    let ghost outcomes = xml_outcomes(xml@);
    proof {
        assert(outcomes.skip(0) =~= outcomes);
    }
    loop
        invariant
            outcomes == xml_outcomes(xml@),
            is_reading(outcomes),
            events.len() < outcomes.len(),
            pending_outcomes(reader) == outcomes.skip(events.len() as int),
            forall|i: int| 0 <= i < events.len() ==> outcomes[i] == Outcome::Event(events@[i]@),
        decreases outcomes.len() - events.len(),
    {
        let ghost n = events.len() as int;
        proof {
            assert(outcomes.skip(n)[0] == outcomes[n]);
            assert(outcomes.skip(n).drop_first() =~= outcomes.skip(n + 1));
        }
        match read_event(&mut reader) {
            Ok(event) => {
                let decoded = decode_event(&event);
                let at_end = match decoded {
                    XmlEvent::Eof => true,
                    _ => false,
                };
                events.push(decoded);
                if at_end {
                    proof {
                        assert(n == outcomes.len() - 1);
                        assert(events_view(events@) =~= events_read(outcomes));
                    }
                    return Ok(events);
                }
                proof {
                    if n == outcomes.len() - 1 {
                        assert(outcomes.last() == Outcome::Event(EventModel::Eof));
                    }
                }
            },
            Err(error) => {
                let offset = buffer_position(&reader);
                proof {
                    assert(n == outcomes.len() - 1);
                }
                return Err(ParseError { message: describe_error(&error, offset), offset });
            },
        }
    }
}

} // verus!
