//! The boundary to quick_xml: a whole document pulled into a flat list of
//! events — opening tags with their attributes, closing tags, and text —
//! which the XML-based coverage parsers then fold over in verified code.

use vstd::prelude::*;

verus! {

/// One XML event: an opening tag (self-closing or not) with its
/// attributes, a closing tag, or a text node. Tag and attribute names are
/// raw bytes; attribute values and text are unescaped strings.
#[derive(Debug)]
pub enum XmlEvent {
    Open { name: Vec<u8>, attrs: Vec<(Vec<u8>, String)>, self_closing: bool },
    Close { name: Vec<u8> },
    Text { content: String },
}

/// Mathematical image of an `XmlEvent`.
pub enum XmlEventView {
    Open { name: Seq<u8>, attrs: Seq<(Seq<u8>, Seq<char>)>, self_closing: bool },
    Close { name: Seq<u8> },
    Text { content: Seq<char> },
}

impl View for XmlEvent {
    type V = XmlEventView;

    open spec fn view(&self) -> XmlEventView {
        match self {
            XmlEvent::Open { name, attrs, self_closing } => XmlEventView::Open {
                name: name@,
                attrs: Seq::new(attrs@.len(), |i: int| (attrs@[i].0@, attrs@[i].1@)),
                self_closing: *self_closing,
            },
            XmlEvent::Close { name } => XmlEventView::Close { name: name@ },
            XmlEvent::Text { content } => XmlEventView::Text { content: content@ },
        }
    }
}

impl DeepView for XmlEvent {
    type V = XmlEventView;

    open spec fn deep_view(&self) -> XmlEventView {
        self.view()
    }
}

#[verifier::external_type_specification]
#[verifier::external_body]
pub struct ExBytesStart<'a>(quick_xml::events::BytesStart<'a>);

#[verifier::external_type_specification]
#[verifier::external_body]
pub struct ExBytesText<'a>(quick_xml::events::BytesText<'a>);

/// The events a document parses to, or nothing when the reader stops on
/// malformed XML.
pub uninterp spec fn spec_xml_events(input: Seq<u8>) -> Option<Seq<XmlEventView>>;

/// The byte position the reader reports when it stops on malformed XML.
pub uninterp spec fn spec_xml_error_pos(input: Seq<u8>) -> u64;

/// Relies on quick_xml's `Reader::read_event` over a byte slice, with
/// text trimming on: the event stream depends on the input bytes alone.
/// Start and empty tags carry their attributes; a text node that cannot
/// be unescaped is skipped, as are processing instructions and comments.
/// On malformed XML the reader's byte position is returned.
#[verifier::external_body]
pub fn read_xml_events(input: &[u8]) -> (r: Result<Vec<XmlEvent>, u64>)
    ensures
        match r {
            Ok(v) => Some(v.deep_view()) == spec_xml_events(input@),
            Err(pos) => spec_xml_events(input@) is None && pos == spec_xml_error_pos(input@),
        },
{
    let mut rd = quick_xml::reader::Reader::from_reader(input);
    rd.trim_text(true);
    let mut out = Vec::new();
    loop {
        match step_event(&mut rd, &mut out) {
            Ok(true) => return Ok(out),
            Ok(false) => {},
            Err(pos) => return Err(pos),
        }
    }
}

#[verifier::external_type_specification]
#[verifier::external_body]
#[verifier::reject_recursive_types(R)]
pub struct ExReader<R>(quick_xml::reader::Reader<R>);

/// Relies on quick_xml's `Reader::read_event` and `buffer_position`:
/// pulls one event, converts it, and reports the end of the document or
/// the position of a syntax error.
#[verifier::external_body]
fn step_event(rd: &mut quick_xml::reader::Reader<&[u8]>, out: &mut Vec<XmlEvent>) -> (r: Result<
    bool,
    u64,
>) {
    match rd.read_event() {
        Err(_) => Err(rd.buffer_position() as u64),
        Ok(quick_xml::events::Event::Eof) => Ok(true),
        Ok(quick_xml::events::Event::Start(e)) => { out.push(conv_open(&e, false)); Ok(false) },
        Ok(quick_xml::events::Event::Empty(e)) => { out.push(conv_open(&e, true)); Ok(false) },
        Ok(quick_xml::events::Event::End(e)) => { out.push(XmlEvent::Close { name: e.name().as_ref().to_vec() }); Ok(false) },
        Ok(quick_xml::events::Event::Text(t)) => { conv_text(&t, out); Ok(false) },
        Ok(_) => Ok(false),
    }
}

/// Relies on quick_xml's `BytesStart::attributes` and
/// `Attribute::unescape_value`: converts one opening tag to an event,
/// skipping attributes that do not parse or unescape.
#[verifier::external_body]
fn conv_open(e: &quick_xml::events::BytesStart<'_>, self_closing: bool) -> (r: XmlEvent) {
    let mut attrs: Vec<(Vec<u8>, String)> = Vec::new();
    for a in e.attributes().flatten() {
        if let Ok(v) = a.unescape_value() {
            attrs.push((a.key.as_ref().to_vec(), v.into_owned()));
        }
    }
    XmlEvent::Open { name: e.name().as_ref().to_vec(), attrs, self_closing }
}

/// Relies on quick_xml's `BytesText::unescape`: converts one text node to
/// an event, skipping it when unescaping fails.
#[verifier::external_body]
fn conv_text(t: &quick_xml::events::BytesText<'_>, out: &mut Vec<XmlEvent>) {
    if let Ok(c) = t.unescape() {
        out.push(XmlEvent::Text { content: c.into_owned() });
    }
}

/// The first attribute stored under `key`, if any.
pub open spec fn spec_attr(attrs: Seq<(Seq<u8>, Seq<char>)>, key: Seq<u8>) -> Option<Seq<char>>
    decreases attrs.len(),
{
    if attrs.len() == 0 {
        None
    } else if attrs[0].0 == key {
        Some(attrs[0].1)
    } else {
        spec_attr(attrs.drop_first(), key)
    }
}

/// The first attribute stored under `key`, if any.
pub fn get_attr<'a>(attrs: &'a Vec<(Vec<u8>, String)>, key: &[u8]) -> (r: Option<&'a String>)
    ensures
        match r {
            Some(v) => Some(v@) == spec_attr(view_attrs(attrs), key@),
            None => spec_attr(view_attrs(attrs), key@) is None,
        },
{
    let ghost av = view_attrs(attrs);
    let n = attrs.len();
    let mut i: usize = 0;
    proof {
        assert(av.skip(0) =~= av);
    }
    while i < n
        invariant
            n == attrs@.len(),
            av == view_attrs(attrs),
            av.len() == n,
            0 <= i <= n,
            spec_attr(av, key@) == spec_attr(av.skip(i as int), key@),
        decreases n - i,
    {
        proof {
            assert(av.skip(i as int)[0] == av[i as int]);
            assert(av.skip(i as int).drop_first() =~= av.skip(i + 1));
            assert(av[i as int] == (attrs@[i as int].0@, attrs@[i as int].1@));
        }
        if crate::text::bytes_eq(attrs[i].0.as_slice(), key) {
            return Some(&attrs[i].1);
        }
        i += 1;
    }
    proof {
        assert(av.skip(n as int) =~= Seq::<(Seq<u8>, Seq<char>)>::empty());
    }
    None
}

/// The mathematical image of an attribute list.
pub open spec fn view_attrs(attrs: &Vec<(Vec<u8>, String)>) -> Seq<(Seq<u8>, Seq<char>)> {
    Seq::new(attrs@.len(), |i: int| (attrs@[i].0@, attrs@[i].1@))
}

} // verus!
