//! Parser events: the semantic units that the parser emits once the
//! well-formedness rules hold, the shape that callers consume.
use vstd::prelude::*;
use vstd::string::*;
use vstd::utf8::*;
use crate::token::{attrs_view, Attr, SpecAttr, SpecXmlDecl, XmlDecl};

verus! {

/// An event of the document, in document order.
#[non_exhaustive]
#[derive(Clone, Debug, PartialEq, Eq)]
pub enum Event<'a> {
    /// `<?xml version="..." ...?>`: at most once, first in the stream
    /// (section 2.8).
    XmlDecl(XmlDecl<'a>),
    /// `<!DOCTYPE name ...>`: at most once, before the root element.
    Doctype { name: &'a str, body: &'a str },
    /// An element starts. An empty-element tag (`<x/>`) gives a
    /// `StartElement` and then an `EndElement`, so that callers see one
    /// uniform stream.
    StartElement { name: &'a str, attributes: Vec<Attr<'a>> },
    /// An element ends.
    EndElement(&'a str),
    /// Character data (section 2.4), including the text that references
    /// give: a predefined entity its character, a character reference the
    /// character it names, a declared entity its replacement text.
    Text(String),
    /// `<![CDATA[...]]>`, kept apart from `Text` for callers that care about
    /// the source form.
    CData(&'a str),
    /// `<!-- ... -->` (section 2.5).
    Comment(&'a str),
    /// `<?target body?>` other than the XML declaration (section 2.6).
    ProcessingInstruction { target: &'a str, body: &'a str },
}

/// An event, its strings taken by their UTF-8 bytes.
pub enum SpecEvent {
    XmlDecl(SpecXmlDecl),
    Doctype { name: Seq<u8>, body: Seq<u8> },
    StartElement { name: Seq<u8>, attributes: Seq<SpecAttr> },
    EndElement(Seq<u8>),
    Text(Seq<u8>),
    CData(Seq<u8>),
    Comment(Seq<u8>),
    ProcessingInstruction { target: Seq<u8>, body: Seq<u8> },
}

impl<'a> View for Event<'a> {
    type V = SpecEvent;

    open spec fn view(&self) -> SpecEvent {
        match self {
            Event::XmlDecl(d) => SpecEvent::XmlDecl(d@),
            Event::Doctype { name, body } => SpecEvent::Doctype {
                name: name.spec_bytes(),
                body: body.spec_bytes(),
            },
            Event::StartElement { name, attributes } => SpecEvent::StartElement {
                name: name.spec_bytes(),
                attributes: attrs_view(attributes@),
            },
            Event::EndElement(n) => SpecEvent::EndElement(n.spec_bytes()),
            Event::Text(t) => SpecEvent::Text(encode_utf8(t@)),
            Event::CData(t) => SpecEvent::CData(t.spec_bytes()),
            Event::Comment(t) => SpecEvent::Comment(t.spec_bytes()),
            Event::ProcessingInstruction { target, body } => SpecEvent::ProcessingInstruction {
                target: target.spec_bytes(),
                body: body.spec_bytes(),
            },
        }
    }
}

} // verus!
