//! The token model: one variant per lexical construct of XML 1.0 sections 2
//! and 3. Every string a token carries is a slice of the input.
use vstd::prelude::*;
use vstd::string::*;
use crate::error::Position;

verus! {

/// A token recognised by the lexer. `'a` is the lifetime of the input.
#[non_exhaustive]
#[derive(Clone, Debug, PartialEq, Eq)]
pub enum Token<'a> {
    /// `<?xml version="1.0" ...?>` (section 2.8, production 23).
    XmlDecl(XmlDecl<'a>),
    /// `<!DOCTYPE name ...>` (production 28); the body is kept raw.
    Doctype { name: &'a str, body: &'a str },
    /// `<name attr="value" ...>` (production 40).
    StartTag { name: &'a str, attributes: Vec<Attr<'a>> },
    /// `<name attr="value" .../>` (production 44).
    EmptyTag { name: &'a str, attributes: Vec<Attr<'a>> },
    /// `</name>` (production 42).
    EndTag(&'a str),
    /// Character data between markup (production 14), white space included.
    Text(&'a str),
    /// `<![CDATA[ ... ]]>` (production 18).
    CData(&'a str),
    /// `<!-- ... -->` (production 15).
    Comment(&'a str),
    /// `<?target body?>` (production 16).
    ProcessingInstruction { target: &'a str, body: &'a str },
    /// `&name;` (production 68).
    EntityRef(&'a str),
    /// `&#nnn;` or `&#xhhh;` (production 66), resolved to its character.
    CharRef(char),
}

/// One attribute of a start tag (production 41).
#[derive(Clone, Debug, PartialEq, Eq)]
pub struct Attr<'a> {
    pub name: &'a str,
    pub value: &'a str,
    /// Where the attribute's name starts.
    pub pos: Position,
}

/// The parts of an XML declaration (productions 23 to 25).
#[derive(Clone, Debug, PartialEq, Eq)]
pub struct XmlDecl<'a> {
    pub version: &'a str,
    pub encoding: Option<&'a str>,
    pub standalone: Option<bool>,
}

/// An attribute, its strings taken by their UTF-8 bytes.
pub struct SpecAttr {
    pub name: Seq<u8>,
    pub value: Seq<u8>,
    pub pos: Position,
}

/// An XML declaration, its strings taken by their UTF-8 bytes.
pub struct SpecXmlDecl {
    pub version: Seq<u8>,
    pub encoding: Option<Seq<u8>>,
    pub standalone: Option<bool>,
}

/// A token, its strings taken by their UTF-8 bytes.
pub enum SpecToken {
    XmlDecl(SpecXmlDecl),
    Doctype { name: Seq<u8>, body: Seq<u8> },
    StartTag { name: Seq<u8>, attributes: Seq<SpecAttr> },
    EmptyTag { name: Seq<u8>, attributes: Seq<SpecAttr> },
    EndTag(Seq<u8>),
    Text(Seq<u8>),
    CData(Seq<u8>),
    Comment(Seq<u8>),
    ProcessingInstruction { target: Seq<u8>, body: Seq<u8> },
    EntityRef(Seq<u8>),
    CharRef(char),
}

impl<'a> View for Attr<'a> {
    type V = SpecAttr;

    open spec fn view(&self) -> SpecAttr {
        SpecAttr { name: self.name.spec_bytes(), value: self.value.spec_bytes(), pos: self.pos }
    }
}

impl<'a> View for XmlDecl<'a> {
    type V = SpecXmlDecl;

    open spec fn view(&self) -> SpecXmlDecl {
        SpecXmlDecl {
            version: self.version.spec_bytes(),
            encoding: match self.encoding {
                Some(e) => Some(e.spec_bytes()),
                None => None,
            },
            standalone: self.standalone,
        }
    }
}

/// The views of a list of attributes.
pub open spec fn attrs_view<'a>(attrs: Seq<Attr<'a>>) -> Seq<SpecAttr> {
    attrs.map_values(|a: Attr<'a>| a@)
}

impl<'a> View for Token<'a> {
    type V = SpecToken;

    open spec fn view(&self) -> SpecToken {
        match self {
            Token::XmlDecl(d) => SpecToken::XmlDecl(d@),
            Token::Doctype { name, body } => SpecToken::Doctype {
                name: name.spec_bytes(),
                body: body.spec_bytes(),
            },
            Token::StartTag { name, attributes } => SpecToken::StartTag {
                name: name.spec_bytes(),
                attributes: attrs_view(attributes@),
            },
            Token::EmptyTag { name, attributes } => SpecToken::EmptyTag {
                name: name.spec_bytes(),
                attributes: attrs_view(attributes@),
            },
            Token::EndTag(n) => SpecToken::EndTag(n.spec_bytes()),
            Token::Text(t) => SpecToken::Text(t.spec_bytes()),
            Token::CData(t) => SpecToken::CData(t.spec_bytes()),
            Token::Comment(t) => SpecToken::Comment(t.spec_bytes()),
            Token::ProcessingInstruction { target, body } => SpecToken::ProcessingInstruction {
                target: target.spec_bytes(),
                body: body.spec_bytes(),
            },
            Token::EntityRef(n) => SpecToken::EntityRef(n.spec_bytes()),
            Token::CharRef(c) => SpecToken::CharRef(*c),
        }
    }
}

} // verus!
