//! XML events as plain values. Tokenizing is quick-xml's work; the
//! converters in this crate consume the resulting event list.

use vstd::prelude::*;
use vstd::utf8::encode_utf8;
use quick_xml::events::Event;
use quick_xml::Reader;

verus! {

/// One XML event, reduced to what the converters read.
pub enum XmlEvent {
    /// `<name ...>`, with the raw name bytes.
    Start(Vec<u8>),
    /// `<name .../>`, with the raw bytes of the requested attribute's value
    /// when present.
    Empty(Vec<u8>, Option<Vec<u8>>),
    /// Character data between tags, decoded. (quick-xml hands entity
    /// references such as `&amp;` out as events of their own, which the
    /// converters do not read.)
    Text(String),
    /// `</name>`.
    End(Vec<u8>),
}

/// The content of an [`XmlEvent`].
pub enum XmlToken {
    Start(Seq<u8>),
    Empty(Seq<u8>, Option<Seq<u8>>),
    Text(Seq<char>),
    End(Seq<u8>),
}

impl View for XmlEvent {
    type V = XmlToken;

    open spec fn view(&self) -> XmlToken {
        match self {
            XmlEvent::Start(n) => XmlToken::Start(n@),
            XmlEvent::Empty(n, a) => XmlToken::Empty(
                n@,
                match a {
                    Some(v) => Some(v@),
                    None => None,
                },
            ),
            XmlEvent::Text(t) => XmlToken::Text(t@),
            XmlEvent::End(n) => XmlToken::End(n@),
        }
    }
}

/// The tokens of an event list.
pub open spec fn tokens_of(events: Seq<XmlEvent>) -> Seq<XmlToken> {
    events.map_values(|e: XmlEvent| e@)
}

/// The events quick-xml reads from `xml` up to the end of input or the first
/// error, with the value of attribute `attr` on empty elements. Only start,
/// empty, text and end events are among the tokens: CDATA sections,
/// comments, the XML declaration, processing instructions, the doctype and
/// entity references (`GeneralRef`) are not.
pub uninterp spec fn xml_tokens(xml: Seq<char>, attr: Seq<char>) -> Seq<XmlToken>;

/// An element name spelled `lit`.
pub open spec fn named(n: Seq<u8>, lit: &str) -> bool {
    n == encode_utf8(lit@)
}

/// Whether the name bytes `n` spell `lit`.
pub fn name_is(n: &Vec<u8>, lit: &str) -> (r: bool)
    ensures
        r == named(n@, lit),
{
    let b = lit.as_bytes();
    if n.len() != b.len() {
        return false;
    }
    let mut i: usize = 0;
    while i < n.len()
        invariant
            n@.len() == b@.len(),
            b@ == encode_utf8(lit@),
            i <= n@.len(),
            forall|j: int| 0 <= j < i ==> n@[j] == b@[j],
        decreases n@.len() - i,
    {
        if n[i] != b[i] {
            assert(n@[i as int] != b@[i as int]);
            assert(n@ != b@);
            return false;
        }
        i += 1;
    }
    assert(n@ =~= b@);
    true
}

/// Reads `xml` with `quick_xml::Reader::from_str` and `read_event` until the
/// end or the first error. Start, empty, text and end events are kept (raw
/// name and attribute bytes, text through `xml_content`). CDATA, comment,
/// declaration, processing-instruction, doctype and entity-reference events
/// are skipped: the converters read none of them.
/// Trusted: the list is the one quick-xml produces for this input.
#[verifier::external_body]
pub(crate) fn read_xml_events(xml: &str, attr: &str) -> (r: Vec<XmlEvent>)
    ensures
        tokens_of(r@) == xml_tokens(xml@, attr@),
{
    let mut reader = Reader::from_str(xml);
    let mut out = Vec::new();
    loop {
        out.push(match reader.read_event() {
            Ok(Event::Start(e)) => XmlEvent::Start(e.name().as_ref().to_vec()),
            Ok(Event::Empty(e)) => XmlEvent::Empty(e.name().as_ref().to_vec(),
                e.try_get_attribute(attr).unwrap_or(None).map(|a| a.value.to_vec())),
            Ok(Event::Text(t)) => XmlEvent::Text(t.xml_content().unwrap_or_default().into_owned()),
            Ok(Event::End(e)) => XmlEvent::End(e.name().as_ref().to_vec()),
            Ok(Event::Eof) | Err(_) => return out,
            _ => continue,
        });
    }
}

} // verus!
