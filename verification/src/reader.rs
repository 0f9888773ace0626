//! The markup event source: a forward-only pull parser over in-memory
//! bytes, drained event by event into the library's own event values.
use vstd::prelude::*;
use crate::model::{Attr, Event, ParseError};

verus! {

/// Holds the outside pull parser; opaque here, read only through the
/// trusted items below.
#[verifier::external_body]
pub struct MarkupReader {
    inner: xml::reader::EventReader<std::io::Cursor<Vec<u8>>>,
}

/// Relies on xml's ParserConfig::create_reader: a pull parser positioned
/// at the start of the given bytes, configured to hand whitespace over as
/// character data and to leave comments out, as the builder expects.
#[verifier::external_body]
pub fn make_event_reader(bytes: Vec<u8>) -> MarkupReader {
    MarkupReader {
        inner: xml::ParserConfig::new().whitespace_to_characters(true).ignore_comments(
            true,
        ).create_reader(std::io::Cursor::new(bytes)),
    }
}

/// Relies on xml's EventReader::next: the next structural event of the
/// stream, here folded one-to-one into the library's event kinds, with an
/// element name rendered as its qualified string; a failure of the
/// underlying parse becomes a read failure.
#[verifier::external_body]
fn next_event(r: &mut MarkupReader) -> Result<
    Event,
    ParseError,
> {
    match r.inner.next() {
        Ok(xml::reader::XmlEvent::StartElement { name, attributes, .. }) => Ok(
            Event::Start {
                name: name.to_string(),
                attrs: attributes.into_iter().map(
                    |a| Attr { name: a.name.to_string(), value: a.value },
                ).collect(),
            },
        ),
        Ok(xml::reader::XmlEvent::EndElement { name }) => Ok(Event::End { name: name.to_string() }),
        Ok(xml::reader::XmlEvent::Characters(s)) => Ok(Event::Text { text: s }),
        Ok(xml::reader::XmlEvent::EndDocument) => Ok(Event::Eof),
        Ok(_) => Ok(Event::Other),
        Err(_) => Err(ParseError::ReadFailed),
    }
}

/// Drains a reader to its end-of-stream event, which stays as the
/// sequence's last entry; events of no structural interest are left out.
pub fn read_events(r: &mut MarkupReader) -> (res: Result<
    Vec<Event>,
    ParseError,
>)
    ensures
        res matches Ok(evs) ==> evs@.len() >= 1 && evs@.last() is Eof,
{
    let mut out: Vec<Event> = Vec::new();
    let mut remaining: usize = usize::MAX;
    while remaining > 0
        decreases remaining,
    {
        match next_event(r) {
            Ok(e) => {
                match e {
                    Event::Eof => {
                        out.push(Event::Eof);
                        return Ok(out);
                    },
                    Event::Other => {},
                    other => {
                        out.push(other);
                    },
                }
            },
            Err(e) => {
                return Err(e);
            },
        }
        remaining = remaining - 1;
    }
    Err(ParseError::ReadFailed)
}

/// The whole event sequence of one markup source held in memory.
pub fn parse_events(bytes: Vec<u8>) -> (res: Result<Vec<Event>, ParseError>)
    ensures
        res matches Ok(evs) ==> evs@.len() >= 1 && evs@.last() is Eof,
{
    let mut r = make_event_reader(bytes);
    read_events(&mut r)
}

} // verus!
