//! XML events as `quick_xml` reads them, held as plain values.
use vstd::prelude::*;
use quick_xml::events::attributes::Attributes;
use quick_xml::events::BytesStart;
use quick_xml::events::Event::{Empty, End, Eof, Start, Text};
use quick_xml::reader::Reader;

use crate::bytes::{first_index, find_byte};

verus! {

#[verifier::external_type_specification]
#[verifier::external_body]
#[verifier::reject_recursive_types(R)]
pub struct ExReader<R>(Reader<R>);

/// A start or empty-element tag: its qualified name, and its attributes as (key, raw
/// value) pairs, once read in XML mode and once in HTML mode (which also accepts unquoted
/// values and keys without values). Attributes that could not be read are left out.
pub struct XmlTag(
    /// The qualified name.
    pub Vec<u8>,
    /// The attributes read in XML mode.
    pub Vec<(Vec<u8>, Vec<u8>)>,
    /// The attributes read in HTML mode.
    pub Vec<(Vec<u8>, Vec<u8>)>,
);

/// One event of an XML document.
pub enum XmlEvent {
    Start(XmlTag),
    Empty(XmlTag),
    /// An end tag, with its qualified name.
    End(Vec<u8>),
    /// Character data, still escaped.
    Text(Vec<u8>),
    Eof,
    /// The reader reported an error.
    Error,
    /// Any other event (comments, CDATA, declarations, references, ...).
    Other,
}

/// The plain value of a tag.
pub struct TagView {
    pub name: Seq<u8>,
    pub attributes: Seq<(Seq<u8>, Seq<u8>)>,
    pub html_attributes: Seq<(Seq<u8>, Seq<u8>)>,
}

/// The plain value of an XML event.
pub enum XmlEventView {
    Start(TagView),
    Empty(TagView),
    End(Seq<u8>),
    Text(Seq<u8>),
    Eof,
    Error,
    Other,
}

/// The plain values of attribute pairs.
pub open spec fn pairs_view(v: Seq<(Vec<u8>, Vec<u8>)>) -> Seq<(Seq<u8>, Seq<u8>)> {
    v.map_values(|p: (Vec<u8>, Vec<u8>)| (p.0@, p.1@))
}

impl View for XmlTag {
    type V = TagView;

    open spec fn view(&self) -> TagView {
        TagView {
            name: self.0@,
            attributes: pairs_view(self.1@),
            html_attributes: pairs_view(self.2@),
        }
    }
}

impl View for XmlEvent {
    type V = XmlEventView;

    open spec fn view(&self) -> XmlEventView {
        match self {
            XmlEvent::Start(t) => XmlEventView::Start(t@),
            XmlEvent::Empty(t) => XmlEventView::Empty(t@),
            XmlEvent::End(n) => XmlEventView::End(n@),
            XmlEvent::Text(b) => XmlEventView::Text(b@),
            XmlEvent::Eof => XmlEventView::Eof,
            XmlEvent::Error => XmlEventView::Error,
            XmlEvent::Other => XmlEventView::Other,
        }
    }
}

/// The plain values of a sequence of events.
pub open spec fn events_view(v: Seq<XmlEvent>) -> Seq<XmlEventView> {
    v.map_values(|e: XmlEvent| e@)
}

/// The events that a `quick_xml` reader over a byte slice has yet to hand out, up to and
/// including the end-of-file event.
pub uninterp spec fn xml_pending(r: Reader<&[u8]>) -> Seq<XmlEventView>;

/// The events of `content`, as a `quick_xml` reader with the default configuration hands
/// them out, up to and including the end-of-file event.
pub uninterp spec fn xml_events(content: Seq<u8>) -> Seq<XmlEventView>;

/// Calls `quick_xml::reader::Reader::from_reader`. Trusted: the new reader has the events of
/// `content` to hand out; they end with the first end-of-file event (each read consumes
/// input, so the reader reaches the end).
#[verifier::external_body]
fn xml_reader(content: &[u8]) -> (r: Reader<&[u8]>)
    ensures
        xml_pending(r) == xml_events(content@),
        xml_pending(r).len() > 0,
        xml_pending(r).last() is Eof,
        forall|i: int| 0 <= i < xml_pending(r).len() - 1 ==> !(xml_pending(r)[i] is Eof),
{
    Reader::from_reader(content)
}

/// Calls `Reader::read_event_into`. Trusted: while the reader has events left, it hands
/// out the first of them, converted to a plain value, and drops it from the ones left.
/// What it leaves in `buf` is not stated.
#[verifier::external_body]
fn xml_next(reader: &mut Reader<&[u8]>, buf: &mut Vec<u8>) -> (ev: XmlEvent)
    ensures
        xml_pending(*old(reader)).len() > 0 ==> ev@ == xml_pending(*old(reader))[0]
            && xml_pending(*final(reader)) == xml_pending(*old(reader)).drop_first(),
{
    let p = |i: Attributes| i.flatten().map(|a| (a.key.0.into(), a.value.into())).collect();
    let t = |e: BytesStart| XmlTag(e.name().0.into(), p(e.attributes()), p(e.html_attributes()));
    match reader.read_event_into(buf) {
        Ok(Start(e)) => XmlEvent::Start(t(e)),
        Ok(Empty(e)) => XmlEvent::Empty(t(e)),
        Ok(End(e)) => XmlEvent::End(e.name().0.into()),
        Ok(Text(e)) => XmlEvent::Text(e.to_vec()),
        Ok(Eof) => XmlEvent::Eof,
        Ok(_) => XmlEvent::Other,
        Err(_) => XmlEvent::Error
    }
}

/// Reads all events of an XML document, up to and including the end-of-file event.
pub fn read_xml_events(content: &[u8]) -> (r: Vec<XmlEvent>)
    ensures
        events_view(r@) == xml_events(content@),
{
    let mut reader = xml_reader(content);
    let ghost all = xml_events(content@);
    let mut buf: Vec<u8> = Vec::new();
    let mut events: Vec<XmlEvent> = Vec::new();
    loop
        invariant
            all == xml_events(content@),
            all.len() > 0,
            all.last() is Eof,
            forall|i: int| 0 <= i < all.len() - 1 ==> !(all[i] is Eof),
            events@.len() < all.len(),
            events_view(events@) == all.take(events@.len() as int),
            xml_pending(reader) == all.skip(events@.len() as int),
        decreases all.len() - events@.len(),
    {
        let ev = xml_next(&mut reader, &mut buf);
        buf.clear();
        let done = match ev {
            XmlEvent::Eof => true,
            _ => false,
        };
        let ghost n: int = events@.len() as int;
        events.push(ev);
        assert(events_view(events@) =~= all.take(n + 1));
        if done {
            assert(all.take(n + 1) =~= all);
            return events;
        }
    }
}

/// The local part of a qualified name: everything after its first `:`.
pub open spec fn local_part(q: Seq<u8>) -> Seq<u8> {
    if first_index(q, 0x3a) < q.len() {
        q.skip(first_index(q, 0x3a) + 1)
    } else {
        q
    }
}

/// The local part of a qualified name, as `quick_xml::name::QName::local_name` gives it.
pub fn local_name(q: &[u8]) -> (r: &[u8])
    ensures
        r@ == local_part(q@),
{
    let i = find_byte(q, 0x3a);
    if i < q.len() {
        let r = vstd::slice::slice_subrange(q, i + 1, q.len());
        assert(r@ =~= q@.skip(i + 1));
        r
    } else {
        q
    }
}

/// The raw value of the first attribute with the given key.
pub open spec fn first_attr(attrs: Seq<(Seq<u8>, Seq<u8>)>, key: Seq<u8>) -> Option<Seq<u8>>
    decreases attrs.len(),
{
    if attrs.len() == 0 {
        None
    } else if attrs[0].0 == key {
        Some(attrs[0].1)
    } else {
        first_attr(attrs.drop_first(), key)
    }
}

/// Looks up the raw value of the first attribute with the given key.
pub fn find_attr<'a>(attrs: &'a Vec<(Vec<u8>, Vec<u8>)>, key: &[u8]) -> (r: Option<&'a Vec<u8>>)
    ensures
        match first_attr(pairs_view(attrs@), key@) {
            None => r is None,
            Some(v) => r matches Some(w) && w@ == v,
        },
{
    let mut i: usize = 0;
    assert(pairs_view(attrs@).skip(0) =~= pairs_view(attrs@));
    while i < attrs.len()
        invariant
            i <= attrs@.len(),
            first_attr(pairs_view(attrs@).skip(i as int), key@) == first_attr(
                pairs_view(attrs@),
                key@,
            ),
        decreases attrs@.len() - i,
    {
        let ghost rest = pairs_view(attrs@).skip(i as int);
        assert(rest[0] == (attrs@[i as int].0@, attrs@[i as int].1@));
        if crate::bytes::bytes_eq(attrs[i].0.as_slice(), key) {
            return Some(&attrs[i].1);
        }
        assert(rest.drop_first() =~= pairs_view(attrs@).skip(i + 1));
        i = i + 1;
    }
    None
}

} // verus!
