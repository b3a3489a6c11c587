//! The events of the XML that PRINT returns, read with quick-xml.
//!
//! quick-xml does the tokenizing. Its event stream is a function of the
//! text alone; `xml_events` names it, as plain values, and the device model
//! is built from it.
use vstd::prelude::*;
use vstd::utf8::*;

use quick_xml::events::Event;
use quick_xml::Reader;

verus! {

/// `quick_xml::Reader`, the pull parser.
#[verifier::external_type_specification]
#[verifier::external_body]
#[verifier::reject_recursive_types(R)]
pub struct ExReader<R>(Reader<R>);

/// An opening or self-closing tag: its local name (without namespace
/// prefix) and its attributes in order, each the raw key and raw value
/// bytes, or `None` for a malformed one.
pub struct XmlTag {
    pub name: Vec<u8>,
    pub attrs: Vec<Option<(Vec<u8>, Vec<u8>)>>,
}

/// One event of the reader.
pub enum XmlEvent {
    /// An opening tag `<x ...>`.
    Start(XmlTag),
    /// A self-closing tag `<x .../>`.
    Empty(XmlTag),
    /// A closing tag `</x>`, with its local name.
    End(Vec<u8>),
    /// The end of the document.
    Eof,
    /// Any other event (text, comment, declaration, ...).
    Other,
    /// A parse error, with its description.
    Fail(String),
}

/// [`XmlTag`] as plain values.
pub struct XmlTagView {
    pub name: Seq<u8>,
    pub attrs: Seq<Option<(Seq<u8>, Seq<u8>)>>,
}

/// [`XmlEvent`] as plain values.
pub enum XmlEventView {
    Start(XmlTagView),
    Empty(XmlTagView),
    End(Seq<u8>),
    Eof,
    Other,
    Fail(Seq<char>),
}

pub open spec fn raw_attr_view(a: Option<(Vec<u8>, Vec<u8>)>) -> Option<(Seq<u8>, Seq<u8>)> {
    match a {
        Some((k, v)) => Some((k@, v@)),
        None => None,
    }
}

impl View for XmlTag {
    type V = XmlTagView;

    open spec fn view(&self) -> XmlTagView {
        XmlTagView {
            name: self.name@,
            attrs: self.attrs@.map_values(|a: Option<(Vec<u8>, Vec<u8>)>| raw_attr_view(a)),
        }
    }
}

impl View for XmlEvent {
    type V = XmlEventView;

    open spec fn view(&self) -> XmlEventView {
        match self {
            XmlEvent::Start(t) => XmlEventView::Start(t@),
            XmlEvent::Empty(t) => XmlEventView::Empty(t@),
            XmlEvent::End(n) => XmlEventView::End(n@),
            XmlEvent::Eof => XmlEventView::Eof,
            XmlEvent::Other => XmlEventView::Other,
            XmlEvent::Fail(m) => XmlEventView::Fail(m@),
        }
    }
}

pub open spec fn events_view(evs: Seq<XmlEvent>) -> Seq<XmlEventView> {
    evs.map_values(|e: XmlEvent| e@)
}

/// Whether an event ends the reading: the end of the document or an error.
pub open spec fn is_final_event(e: XmlEventView) -> bool {
    e is Eof || e is Fail
}

/// A stream that ends at its last element: only the last event is the end
/// of the document or an error.
pub open spec fn is_terminated(evs: Seq<XmlEventView>) -> bool {
    &&& evs.len() > 0
    &&& is_final_event(evs.last())
    &&& forall|i: int| 0 <= i < evs.len() - 1 ==> !is_final_event(#[trigger] evs[i])
}

/// The events that quick-xml's reader gives for the text `xml`, up to and
/// including the end of the document or the first error.
pub uninterp spec fn xml_events(xml: Seq<char>) -> Seq<XmlEventView>;

/// The events that a reader has still to give, up to and including the end
/// of the document or the first error.
pub uninterp spec fn pending_events(reader: Reader<&[u8]>) -> Seq<XmlEventView>;

/// A reader over `xml`.
///
/// Trusted: `quick_xml::Reader::from_str`. The reader has all of `xml`'s
/// events still to give; they end with the end of the document or an error,
/// as quick-xml's slice reader consumes input on every other event.
#[verifier::external_body]
fn xml_reader<'a>(xml: &'a str) -> (r: Reader<&'a [u8]>)
    ensures
        pending_events(r) == xml_events(xml@),
        is_terminated(pending_events(r)),
{
    Reader::from_str(xml)
}

/// The next event of the reader, as plain values.
///
/// Trusted: `quick_xml::Reader::read_event`, with `local_name` and
/// `attributes` of the tags and the `Display` text of an error to convert
/// the event. It gives the first pending event; unless that ends the
/// reading, the rest stay pending. (After the end of the document the
/// reader keeps giving it, and after some errors it reads on; neither is
/// stated.)
#[verifier::external_body]
fn xml_next_event(reader: &mut Reader<&[u8]>) -> (e: XmlEvent)
    requires
        pending_events(*old(reader)).len() > 0,
    ensures
        e@ == pending_events(*old(reader))[0],
        !is_final_event(e@) ==> pending_events(*final(reader)) == pending_events(
            *old(reader),
        ).drop_first(),
{
    let tag = |t: &quick_xml::events::BytesStart| XmlTag {
        name: t.local_name().as_ref().to_vec(),
        attrs: t.attributes().map(|a| a.ok().map(|a| (a.key.as_ref().to_vec(), a.value.to_vec()))).collect(),
    };
    match reader.read_event() {
        Ok(Event::Start(t)) => XmlEvent::Start(tag(&t)),
        Ok(Event::Empty(t)) => XmlEvent::Empty(tag(&t)),
        Ok(Event::End(t)) => XmlEvent::End(t.local_name().as_ref().to_vec()),
        Ok(Event::Eof) => XmlEvent::Eof,
        Ok(_) => XmlEvent::Other,
        Err(err) => XmlEvent::Fail(err.to_string()),
    }
}

/// What `String::from_utf8_lossy` makes of `bytes`: the decoded text, with
/// each invalid sequence replaced by U+FFFD.
pub uninterp spec fn utf8_lossy(bytes: Seq<u8>) -> Seq<char>;

/// Decodes bytes as UTF-8, replacing invalid sequences.
///
/// Trusted: `String::from_utf8_lossy`. Its result is named `utf8_lossy`;
/// on valid UTF-8 it is the decoded text, as the documentation says.
#[verifier::external_body]
pub fn string_from_utf8_lossy(bytes: &[u8]) -> (r: String)
    ensures
        r@ == utf8_lossy(bytes@),
        valid_utf8(bytes@) ==> r@ == decode_utf8(bytes@),
{
    String::from_utf8_lossy(bytes).into_owned()
}

fn is_final(e: &XmlEvent) -> (r: bool)
    ensures
        r == is_final_event(e@),
{
    match e {
        XmlEvent::Eof => true,
        XmlEvent::Fail(_) => true,
        _ => false,
    }
}

/// The events of `xml`, up to and including the end of the document or the
/// first parse error.
pub fn read_xml_events(xml: &str) -> (r: Vec<XmlEvent>)
    ensures
        events_view(r@) == xml_events(xml@),
{
    let mut reader = xml_reader(xml);
    let mut events: Vec<XmlEvent> = Vec::new();
    assert(events_view(events@) + pending_events(reader) =~= xml_events(xml@));
    loop
        invariant_except_break
            events_view(events@) + pending_events(reader) == xml_events(xml@),
            forall|i: int| 0 <= i < events@.len() ==> !is_final_event(#[trigger] events@[i]@),
        invariant
            is_terminated(xml_events(xml@)),
        ensures
            events_view(events@) == xml_events(xml@),
        decreases pending_events(reader).len(),
    {
        let ghost done = events_view(events@);
        let ghost rest = pending_events(reader);
        let ghost all = xml_events(xml@);
        proof {
            if rest.len() == 0 {
                assert(all =~= done);
                assert(!is_final_event(events@[all.len() - 1]@));
            }
            assert(all[done.len() as int] == rest[0]);
        }
        let e = xml_next_event(&mut reader);
        let stop = is_final(&e);
        events.push(e);
        assert(events_view(events@) =~= done.push(rest[0]));
        if !stop {
            assert(events_view(events@) + pending_events(reader) =~= all);
        }
        if stop {
            proof {
                if rest.len() > 1 {
                    assert(!is_final_event(all[done.len() as int]));
                }
                assert(events_view(events@) =~= all);
            }
            break ;
        }
    }
    events
}

} // verus!
