//! The events of an XML document: what the streaming reader yields, and what
//! the rest of the library reads of it.

use crate::node::{attributes_view, text_view};
use crate::text::{trim, trimmed};
use quick_xml::events::attributes::Attributes;
use quick_xml::events::Event;
use quick_xml::Reader;
use vstd::prelude::*;
use vstd::string::StringSliceAdditionalSpecFns;

verus! {

/// The streaming reader of `quick_xml`. Nothing inside it is visible here.
#[verifier::external_type_specification]
#[verifier::external_body]
#[verifier::reject_recursive_types(R)]
pub struct ExReader<R>(Reader<R>);

/// One event as the reader yields it, before anything is decoded.
#[derive(Debug, Clone, PartialEq, Eq)]
pub enum RawEvent {
    /// `<tag attr="value">`: the tag's name, and all that stands between `<`
    /// and `>`, the name included.
    Start(String, String),
    /// `<tag attr="value" />`, with the same two parts.
    Empty(String, String),
    /// `</tag>`: the tag's name.
    End(String),
    /// Character data between tags, still escaped.
    Text(String),
    /// A comment, a CDATA section, a declaration, a processing instruction or
    /// a document type.
    Other,
}

/// The mathematical value of a [`RawEvent`].
pub enum RawEventView {
    Start(Seq<char>, Seq<char>),
    Empty(Seq<char>, Seq<char>),
    End(Seq<char>),
    Text(Seq<char>),
    Other,
}

impl View for RawEvent {
    type V = RawEventView;

    open spec fn view(&self) -> RawEventView {
        match self {
            RawEvent::Start(name, content) => RawEventView::Start(name@, content@),
            RawEvent::Empty(name, content) => RawEventView::Empty(name@, content@),
            RawEvent::End(name) => RawEventView::End(name@),
            RawEvent::Text(content) => RawEventView::Text(content@),
            RawEvent::Other => RawEventView::Other,
        }
    }
}

/// One event with its parts decoded: attributes told apart and unescaped,
/// text unescaped and trimmed.
#[derive(Debug, Clone, PartialEq, Eq)]
pub enum XmlEvent {
    /// The start of an element.
    Start { name: String, attributes: Vec<(String, String)> },
    /// An element without content.
    Empty { name: String, attributes: Vec<(String, String)> },
    /// The end of an element.
    End { name: String },
    /// Character data, trimmed; `None` where it could not be unescaped.
    Text { text: Option<String> },
    /// Anything else.
    Other,
}

/// The mathematical value of an [`XmlEvent`].
pub enum EventView {
    Start { name: Seq<char>, attributes: Seq<(Seq<char>, Seq<char>)> },
    Empty { name: Seq<char>, attributes: Seq<(Seq<char>, Seq<char>)> },
    End { name: Seq<char> },
    Text { text: Option<Seq<char>> },
    Other,
}

impl View for XmlEvent {
    type V = EventView;

    open spec fn view(&self) -> EventView {
        match self {
            XmlEvent::Start { name, attributes } => EventView::Start {
                name: name@,
                attributes: attributes_view(attributes@),
            },
            XmlEvent::Empty { name, attributes } => EventView::Empty {
                name: name@,
                attributes: attributes_view(attributes@),
            },
            XmlEvent::End { name } => EventView::End { name: name@ },
            XmlEvent::Text { text } => EventView::Text { text: text_view(*text) },
            XmlEvent::Other => EventView::Other,
        }
    }
}

/// The values of a list of events.
pub open spec fn events_view(events: Seq<XmlEvent>) -> Seq<EventView> {
    events.map_values(|e: XmlEvent| e@)
}

/// The events that a reader has yet to yield before the document ends or
/// turns out to be malformed.
pub uninterp spec fn pending_events(reader: Reader<&[u8]>) -> Seq<RawEventView>;

/// The events of a document, read with text trimmed at both ends, up to its
/// end or to the first place where it is malformed.
pub uninterp spec fn document_events(content: Seq<char>) -> Seq<RawEventView>;

/// What `quick_xml` finds in the content of a tag after the first `name_len`
/// bytes: each attribute as (name, raw value), `None` for a malformed or
/// repeated one.
pub uninterp spec fn attribute_list(content: Seq<char>, name_len: nat) -> Seq<
    Option<(Seq<char>, Seq<char>)>,
>;

/// Escaped text with its entity and character references resolved; `None`
/// where a reference is unknown or malformed.
pub uninterp spec fn unescaped(raw: Seq<char>) -> Option<Seq<char>>;

/// `Reader::from_str` of `quick_xml`, with `trim_text(true)` set on its
/// configuration. The events of the new reader are a function of the
/// document alone, known here only by its name. Not proved.
#[verifier::external_body]
fn open_reader<'a>(content: &'a str) -> (reader: Reader<&'a [u8]>)
    ensures
        pending_events(reader) == document_events(content@),
{
    let mut reader = Reader::from_str(content);
    reader.config_mut().trim_text(true);
    reader
}

/// `Reader::read_event` of `quick_xml`, its borrowed bytes turned into
/// strings. `None` stands for the end of the document and for an error; any
/// other outcome is the first pending event, which is then no longer
/// pending. Not proved.
#[verifier::external_body]
fn next_event(reader: &mut Reader<&[u8]>) -> (event: Option<RawEvent>)
    ensures
        match event {
            Some(e) => pending_events(*old(reader)).len() > 0 && e@ == pending_events(
                *old(reader),
            )[0] && pending_events(*final(reader)) == pending_events(*old(reader)).skip(1),
            None => pending_events(*old(reader)).len() == 0,
        },
{
    let text = |b: &[u8]| String::from_utf8_lossy(b).into_owned();
    match reader.read_event() {
        Ok(Event::Start(e)) => Some(RawEvent::Start(text(e.name().as_ref()), text(&e))),
        Ok(Event::Empty(e)) => Some(RawEvent::Empty(text(e.name().as_ref()), text(&e))),
        Ok(Event::End(e)) => Some(RawEvent::End(text(&e))),
        Ok(Event::Text(e)) => Some(RawEvent::Text(text(&e))),
        Ok(Event::Eof) | Err(_) => None,
        Ok(_) => Some(RawEvent::Other),
    }
}

/// The value of what [`read_attributes`] returns.
pub open spec fn attribute_results_view(results: Seq<Option<(String, String)>>) -> Seq<
    Option<(Seq<char>, Seq<char>)>,
> {
    results.map_values(
        |r: Option<(String, String)>|
            match r {
                Some(a) => Some((a.0@, a.1@)),
                None => None,
            },
    )
}

/// `Attributes::new` of `quick_xml` and the iterator it makes, run to its
/// end: one entry for each attribute it yields, its name and value turned
/// into strings, `None` where it yields an error. The result is a function
/// of the two arguments, known here only by its name. Not proved.
#[verifier::external_body]
fn read_attributes(content: &str, name_len: usize) -> (results: Vec<Option<(String, String)>>)
    requires
        name_len <= content.spec_bytes().len(),
    ensures
        attribute_results_view(results@) == attribute_list(content@, name_len as nat),
{
    let text = |b: &[u8]| String::from_utf8_lossy(b).into_owned();
    Attributes::new(content, name_len)
        .map(|r| r.ok().map(|a| (text(a.key.as_ref()), text(&a.value))))
        .collect()
}

/// `quick_xml::escape::unescape`: the text with `&lt;`, `&#65;` and the like
/// resolved, `None` where it reports an error. The result is a function of
/// the text, known here only by its name. Not proved.
#[verifier::external_body]
fn unescape(raw: &str) -> (text: Option<String>)
    ensures
        text_view(text) == unescaped(raw@),
{
    quick_xml::escape::unescape(raw).ok().map(|t| t.into_owned())
}

/// The attributes that are kept of what the reader found: the well-formed
/// ones in their order, each with its value unescaped, or as it stands
/// where it cannot be unescaped.
pub open spec fn kept_attributes(found: Seq<Option<(Seq<char>, Seq<char>)>>) -> Seq<
    (Seq<char>, Seq<char>),
>
    decreases found.len(),
{
    if found.len() == 0 {
        Seq::empty()
    } else {
        let before = kept_attributes(found.drop_last());
        match found.last() {
            Some(a) => before.push((a.0, plain_value(a.1))),
            None => before,
        }
    }
}

/// An attribute's value unescaped, or as it stands where that fails.
pub open spec fn plain_value(raw: Seq<char>) -> Seq<char> {
    match unescaped(raw) {
        Some(v) => v,
        None => raw,
    }
}

/// The attributes of a tag with the given name and content: what stands in
/// the content after the bytes of the name.
pub open spec fn decoded_attributes(name: Seq<char>, content: Seq<char>) -> Seq<
    (Seq<char>, Seq<char>),
> {
    let name_len = vstd::utf8::encode_utf8(name).len();
    if name_len <= vstd::utf8::encode_utf8(content).len() {
        kept_attributes(attribute_list(content, name_len))
    } else {
        Seq::empty()
    }
}

/// Character data unescaped and then trimmed.
pub open spec fn decoded_text(content: Seq<char>) -> Option<Seq<char>> {
    match unescaped(content) {
        Some(t) => Some(trimmed(t)),
        None => None,
    }
}

/// What a raw event says once its parts are decoded.
pub open spec fn decoded(raw: RawEventView) -> EventView {
    match raw {
        RawEventView::Start(name, content) => EventView::Start {
            name,
            attributes: decoded_attributes(name, content),
        },
        RawEventView::Empty(name, content) => EventView::Empty {
            name,
            attributes: decoded_attributes(name, content),
        },
        RawEventView::End(name) => EventView::End { name },
        RawEventView::Text(content) => EventView::Text { text: decoded_text(content) },
        RawEventView::Other => EventView::Other,
    }
}

/// The decoded events of a document.
pub open spec fn xml_events(content: Seq<char>) -> Seq<EventView> {
    document_events(content).map_values(|raw: RawEventView| decoded(raw))
}

/// Reads the attributes out of a tag's content.
fn decode_attributes(name: &str, content: &str) -> (attributes: Vec<(String, String)>)
    ensures
        attributes_view(attributes@) == decoded_attributes(name@, content@),
{
    let mut attributes: Vec<(String, String)> = Vec::new();
    let name_len = name.as_bytes().len();
    if name_len > content.as_bytes().len() {
        assert(attributes_view(attributes@) =~= Seq::empty());
        return attributes;
    }
    let found = read_attributes(content, name_len);
    let ghost all = attribute_list(content@, name_len as nat);
    let mut i: usize = 0;
    assert(all.take(0) =~= Seq::empty());
    while i < found.len()
        invariant
            i <= found.len(),
            attribute_results_view(found@) == all,
            attributes_view(attributes@) == kept_attributes(all.take(i as int)),
        decreases found.len() - i,
    {
        let ghost upto = all.take(i + 1);
        assert(upto.drop_last() =~= all.take(i as int));
        assert(upto.last() == all[i as int]);
        assert(all[i as int] == attribute_results_view(found@)[i as int]);
        match &found[i] {
            Some(a) => {
                let value = match unescape(a.1.as_str()) {
                    Some(v) => v,
                    None => a.1.clone(),
                };
                let ghost before = attributes@;
                attributes.push((a.0.clone(), value));
                assert(attributes_view(attributes@) =~= attributes_view(before).push(
                    (a.0@, plain_value(a.1@)),
                ));
            },
            None => {},
        }
        i += 1;
    }
    assert(all.take(found.len() as int) =~= all);
    attributes
}

/// Decodes one event of the reader.
pub fn decode_event(raw: &RawEvent) -> (event: XmlEvent)
    ensures
        event@ == decoded(raw@),
{
    match raw {
        RawEvent::Start(name, content) => XmlEvent::Start {
            name: name.clone(),
            attributes: decode_attributes(name.as_str(), content.as_str()),
        },
        RawEvent::Empty(name, content) => XmlEvent::Empty {
            name: name.clone(),
            attributes: decode_attributes(name.as_str(), content.as_str()),
        },
        RawEvent::End(name) => XmlEvent::End { name: name.clone() },
        RawEvent::Text(content) => {
            let text = match unescape(content.as_str()) {
                Some(t) => Some(trim(t.as_str())),
                None => None,
            };
            XmlEvent::Text { text }
        },
        RawEvent::Other => XmlEvent::Other,
    }
}

/// Reads a document to its end, or to the first place where it is
/// malformed, and returns the events that came before.
pub fn parse_events(content: &str) -> (events: Vec<XmlEvent>)
    ensures
        events_view(events@) == xml_events(content@),
{
    let mut reader = open_reader(content);
    let mut events: Vec<XmlEvent> = Vec::new();
    let ghost all = document_events(content@);
    loop
        invariant_except_break
            pending_events(reader) == all.skip(events@.len() as int),
        invariant
            all == document_events(content@),
            events@.len() <= all.len(),
            forall|i: int| 0 <= i < events@.len() ==> (#[trigger] events@[i])@ == decoded(all[i]),
        ensures
            events@.len() == all.len(),
            forall|i: int| 0 <= i < events@.len() ==> (#[trigger] events@[i])@ == decoded(all[i]),
        decreases pending_events(reader).len(),
    {
        let ghost done = events@.len() as int;
        match next_event(&mut reader) {
            Some(raw) => {
                assert(all.skip(done)[0] == all[done]);
                assert(all.skip(done).skip(1) =~= all.skip(done + 1));
                events.push(decode_event(&raw));
            },
            None => {
                break ;
            },
        }
    }
    assert(events_view(events@) =~= xml_events(content@));
    events
}

} // verus!
