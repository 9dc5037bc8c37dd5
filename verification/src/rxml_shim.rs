//! Trusted declarations for the low-level XML reader (rxml) and the
//! conversion of its events to plain values.
use vstd::prelude::*;

use crate::attrstr;
use crate::validation;

verus! {

/// Declares rxml::Parser, the stateful non-blocking XML reader, as an
/// opaque outside type.
#[verifier::external_type_specification]
#[verifier::external_body]
pub struct ExParser(rxml::Parser);

/// Declares rxml::Event, one parsed XML event, as an opaque outside type;
/// it is taken apart only inside trusted conversion wrappers.
#[verifier::external_type_specification]
#[verifier::external_body]
pub struct ExEvent(rxml::Event);

/// Declares rxml::XmlMap, the attribute container of a start-element
/// event, as an opaque outside type.
#[verifier::external_type_specification]
#[verifier::external_body]
#[verifier::reject_recursive_types(V)]
pub struct ExXmlMap<V>(rxml::XmlMap<V>);

/// One XML event, reduced to plain values. An empty namespace string means
/// an unnamespaced element or attribute, which rxml encodes as the empty
/// namespace name.
pub enum XmlEvent {
    Decl { len: usize },
    Start { len: usize, ns: String, local: String, attrs: Vec<(String, String, String)> },
    End { len: usize },
    Text { len: usize, text: String },
}

/// The outcome of one low-level parse call, the event still opaque.
pub enum RawStep {
    NeedMore,
    Eof,
    Event(rxml::Event),
    Failed(String),
}

/// Relies on rxml::Parser::new: a parser in its initial state.
#[verifier::external_body]
pub(crate) fn parser_new() -> rxml::Parser {
    rxml::Parser::new()
}

/// Relies on rxml's Parse::parse: reads one event from the unread part of
/// the buffer and reports how many bytes it consumed, which never exceeds
/// what was offered.
#[verifier::external_body]
pub(crate) fn parser_parse(p: &mut rxml::Parser, buf: &Vec<u8>, start: usize, at_eof: bool) -> (r: (
    RawStep,
    usize,
))
    requires
        start <= buf@.len(),
    ensures
        r.1 <= buf@.len() - start,
{
    let mut sl = &buf[start..];
    let n0 = sl.len();
    let step = match rxml::Parse::parse(p, &mut sl, at_eof) {
        Ok(Some(ev)) => RawStep::Event(ev),
        Ok(None) => RawStep::Eof,
        Err(rxml::error::EndOrError::NeedMoreData) => RawStep::NeedMore,
        Err(rxml::error::EndOrError::Error(e)) => RawStep::Failed(format!("{}", e)),
    };
    (step, n0.saturating_sub(sl.len()))
}

/// Relies on rxml::Event: one arm per variant, the metrics reduced to their
/// byte count, names and attributes to plain strings. A parser-observed
/// event is namespace-well-formed, so element and attribute names are XML
/// names without colons, and text, namespace URIs and attribute values are
/// character data.
#[verifier::external_body]
pub(crate) fn convert_event(ev: rxml::Event) -> (r: XmlEvent)
    ensures
        match r {
            XmlEvent::Start { len, ns, local, attrs } => {
                &&& attrstr::valid_ncname(local@)
                &&& validation::valid_cdata(ns@)
                &&& forall|i: int|
                    0 <= i < attrs@.len() ==> {
                        &&& attrstr::valid_ncname((#[trigger] attrs@[i]).1@)
                        &&& validation::valid_cdata(attrs@[i].0@)
                        &&& validation::valid_cdata(attrs@[i].2@)
                    }
            },
            XmlEvent::Text { len, text } => validation::valid_cdata(text@),
            _ => true,
        },
{
    match ev {
        rxml::Event::XmlDeclaration(m, _) => XmlEvent::Decl { len: m.len() },
        rxml::Event::StartElement(m, (ns, name), raw) => XmlEvent::Start {
            len: m.len(),
            ns: ns.as_str().to_string(),
            local: name.as_str().to_string(),
            attrs: convert_attrs(raw),
        },
        rxml::Event::EndElement(m) => XmlEvent::End { len: m.len() },
        rxml::Event::Text(m, s) => XmlEvent::Text { len: m.len(), text: s },
    }
}

/// Relies on rxml::AttrMap iteration: each attribute becomes a plain
/// (namespace URI, local name, value) triple.
#[verifier::external_body]
fn convert_attrs(raw: rxml::AttrMap) -> Vec<(String, String, String)> {
    let mut attrs: Vec<(String, String, String)> = Vec::new();
    for ((ans, aname), value) in raw {
        attrs.push((ans.as_str().to_string(), aname.as_str().to_string(), value));
    }
    attrs
}

/// Relies on rxml::Parser::release_temporaries: a memory-use hint with no
/// observable effect on parsing.
#[verifier::external_body]
pub(crate) fn parser_release_temporaries(p: &mut rxml::Parser) {
    rxml::Parse::release_temporaries(p);
}

} // verus!
