//! What the checker carries through unchanged: every event reports what
//! its token read, a comment is content wherever it stands, well-formed
//! markup is accepted, and a reference gives back what was declared.
use vstd::prelude::*;
use vstd::utf8::*;
use crate::entities::{builtin_text, entity_text, lemma_find_byte, run_end, value_text};
use crate::error::Position;
use crate::event::SpecEvent;
use crate::parser::{
    all_ws, attr_names_unique, chars_of, handle, lemma_first_duplicate, DocState, Phase,
};
use crate::token::{SpecToken, SpecXmlDecl};

verus! {

// ---------------------------------------------------------------------------
// Events carry their tokens
// ---------------------------------------------------------------------------

/// A comment is content (production 43) as much as it is prolog or epilog
/// (productions 22 and 27): wherever it stands, at any depth, it is reported
/// as it is and changes nothing.
pub proof fn law_comment_is_never_an_error(doc: DocState, s: Seq<u8>, pos: Position)
    ensures
        handle(doc, SpecToken::Comment(s), pos) == (
            Ok::<Option<SpecEvent>, crate::error::ErrorKind>(Some(SpecEvent::Comment(s))),
            doc,
        ),
{
}

/// The XML declaration an event reports is the declaration the lexer read:
/// a declaration token is reported unchanged or refused, and no other token
/// gives a declaration event.
pub proof fn law_xml_declaration_event_is_the_token(
    doc: DocState,
    tok: SpecToken,
    pos: Position,
    e: SpecXmlDecl,
)
    ensures
        handle(doc, tok, pos).0 == Ok::<Option<SpecEvent>, crate::error::ErrorKind>(
            Some(SpecEvent::XmlDecl(e)),
        ) ==> tok == SpecToken::XmlDecl(e),
        tok matches SpecToken::XmlDecl(d) ==> handle(doc, tok, pos).0 is Err || handle(
            doc,
            tok,
            pos,
        ).0 == Ok::<Option<SpecEvent>, crate::error::ErrorKind>(Some(SpecEvent::XmlDecl(d))),
{
}

/// The events of markup carry what its token read: a start or
/// empty-element tag gives the start of an element with the tag's name and
/// attributes, an end tag the end of the element it names, and a DOCTYPE
/// its name and body, whenever the token is not refused.
pub proof fn law_markup_events_carry_their_tokens(doc: DocState, tok: SpecToken, pos: Position)
    ensures
        tok matches SpecToken::StartTag { name, attributes } ==> handle(doc, tok, pos).0 is Err
            || handle(doc, tok, pos).0 == Ok::<Option<SpecEvent>, crate::error::ErrorKind>(
            Some(SpecEvent::StartElement { name, attributes }),
        ),
        tok matches SpecToken::EmptyTag { name, attributes } ==> handle(doc, tok, pos).0 is Err
            || handle(doc, tok, pos).0 == Ok::<Option<SpecEvent>, crate::error::ErrorKind>(
            Some(SpecEvent::StartElement { name, attributes }),
        ),
        tok matches SpecToken::EndTag(name) ==> handle(doc, tok, pos).0 is Err || handle(
            doc,
            tok,
            pos,
        ).0 == Ok::<Option<SpecEvent>, crate::error::ErrorKind>(
            Some(SpecEvent::EndElement(name)),
        ),
        tok matches SpecToken::Doctype { name, body } ==> handle(doc, tok, pos).0 is Err || handle(
            doc,
            tok,
            pos,
        ).0 == Ok::<Option<SpecEvent>, crate::error::ErrorKind>(
            Some(SpecEvent::Doctype { name, body }),
        ),
{
}

/// What the checker accepts: a start or empty-element tag whose attribute
/// names differ, anywhere before the root element has closed, opens its
/// element (an empty one is closed by the next event); the XML declaration
/// is accepted as the first thing in the document, and a DOCTYPE once in
/// the prolog; white space outside the root element is passed over.
pub proof fn law_well_formed_markup_is_accepted(doc: DocState, tok: SpecToken, pos: Position)
    ensures
        doc.phase != Phase::Epilog ==> (tok matches SpecToken::StartTag { name, attributes }
            ==> (attr_names_unique(attributes) ==> handle(doc, tok, pos) == (
            Ok::<Option<SpecEvent>, crate::error::ErrorKind>(
                Some(SpecEvent::StartElement { name, attributes }),
            ),
            DocState { stack: doc.stack.push(name), phase: Phase::Body, ..doc },
        ))),
        doc.phase != Phase::Epilog ==> (tok matches SpecToken::EmptyTag { name, attributes }
            ==> (attr_names_unique(attributes) ==> handle(doc, tok, pos) == (
            Ok::<Option<SpecEvent>, crate::error::ErrorKind>(
                Some(SpecEvent::StartElement { name, attributes }),
            ),
            DocState {
                stack: doc.stack.push(name),
                phase: Phase::Body,
                pending_end: Some(name),
                ..doc
            },
        ))),
        !doc.saw_xmldecl && !doc.saw_event && !doc.saw_doctype && doc.phase == Phase::Prolog
            && doc.stack.len() == 0 ==> (tok matches SpecToken::XmlDecl(d) ==> handle(
            doc,
            tok,
            pos,
        ).0 == Ok::<Option<SpecEvent>, crate::error::ErrorKind>(Some(SpecEvent::XmlDecl(d)))),
        !doc.saw_doctype && doc.phase == Phase::Prolog ==> (tok matches SpecToken::Doctype {
            name,
            body,
        } ==> handle(doc, tok, pos).0 == Ok::<Option<SpecEvent>, crate::error::ErrorKind>(
            Some(SpecEvent::Doctype { name, body }),
        )),
        doc.stack.len() == 0 ==> (tok matches SpecToken::Text(t) ==> (all_ws(t) ==> handle(
            doc,
            tok,
            pos,
        ) == (Ok::<Option<SpecEvent>, crate::error::ErrorKind>(None), doc))),
{
    match tok {
        SpecToken::StartTag { name, attributes } => {
            lemma_first_duplicate(attributes, 0);
        },
        SpecToken::EmptyTag { name, attributes } => {
            lemma_first_duplicate(attributes, 0);
        },
        _ => {},
    }
}

/// The five predefined entities give their characters inside the root
/// element, whatever the internal subset declared and whatever the limits:
/// `lt` gives `<`, `gt` gives `>`, `amp` gives `&`, `quot` gives `"` and
/// `apos` gives `'`, and the state is left as it was.
pub proof fn law_predefined_entities(doc: DocState, pos: Position)
    requires
        doc.stack.len() > 0,
    ensures
        handle(doc, SpecToken::EntityRef(seq![0x6Cu8, 0x74u8]), pos) == (
            Ok::<Option<SpecEvent>, crate::error::ErrorKind>(Some(SpecEvent::Text(seq![0x3Cu8]))),
            doc,
        ),
        handle(doc, SpecToken::EntityRef(seq![0x67u8, 0x74u8]), pos) == (
            Ok::<Option<SpecEvent>, crate::error::ErrorKind>(Some(SpecEvent::Text(seq![0x3Eu8]))),
            doc,
        ),
        handle(doc, SpecToken::EntityRef(seq![0x61u8, 0x6Du8, 0x70u8]), pos) == (
            Ok::<Option<SpecEvent>, crate::error::ErrorKind>(Some(SpecEvent::Text(seq![0x26u8]))),
            doc,
        ),
        handle(doc, SpecToken::EntityRef(seq![0x71u8, 0x75u8, 0x6Fu8, 0x74u8]), pos) == (
            Ok::<Option<SpecEvent>, crate::error::ErrorKind>(Some(SpecEvent::Text(seq![0x22u8]))),
            doc,
        ),
        handle(doc, SpecToken::EntityRef(seq![0x61u8, 0x70u8, 0x6Fu8, 0x73u8]), pos) == (
            Ok::<Option<SpecEvent>, crate::error::ErrorKind>(Some(SpecEvent::Text(seq![0x27u8]))),
            doc,
        ),
{
}

/// A declared entity whose value holds no reference is replaced by its
/// value, at any depth that lets it be expanded at all.
pub proof fn law_plain_entity_text_is_its_value(
    m: Map<Seq<char>, Seq<char>>,
    name: Seq<char>,
    depth: nat,
)
    requires
        m.contains_key(name),
        depth > 0,
        forall|j: int| 0 <= j < encode_utf8(m[name]).len() ==> #[trigger] encode_utf8(m[name])[j]
            != 0x26u8,
    ensures
        entity_text(m, name, depth) == Ok::<Seq<char>, Seq<char>>(m[name]),
{
    let v = encode_utf8(m[name]);
    lemma_find_byte(v, 0, 0x26u8);
    assert(v.subrange(0, v.len() as int) =~= v);
    encode_utf8_decode_utf8(m[name]);
    if v.len() > 0 {
        assert(run_end(v, 0) == v.len());
        assert(value_text(m, name, v, v.len() as int, depth) == Ok::<Seq<char>, Seq<char>>(
            Seq::empty(),
        ));
        assert(m[name] + Seq::<char>::empty() =~= m[name]);
    } else {
        assert(m[name] =~= Seq::<char>::empty()) by {
            if m[name].len() > 0 {
                encode_utf8_first_scalar(m[name]);
            }
        }
    }
}

/// What a reference gives back of a declaration: inside the root element,
/// a reference to a declared entity whose value holds no reference, and
/// whose length fits the per-reference budget and what is left of the
/// document's budget, gives exactly the declared value as text, and counts
/// its length against the document's budget.
pub proof fn law_reference_gives_declared_value(doc: DocState, name: Seq<u8>, pos: Position)
    requires
        doc.stack.len() > 0,
        builtin_text(name) is None,
        doc.entities.contains_key(chars_of(name)),
        doc.limits.max_depth > 0,
        forall|j: int|
            0 <= j < encode_utf8(doc.entities[chars_of(name)]).len() ==> #[trigger] encode_utf8(
                doc.entities[chars_of(name)],
            )[j] != 0x26u8,
        doc.expanded_total + encode_utf8(doc.entities[chars_of(name)]).len()
            <= doc.limits.max_expanded_bytes,
    ensures
        handle(doc, SpecToken::EntityRef(name), pos) == (
            Ok::<Option<SpecEvent>, crate::error::ErrorKind>(
                Some(SpecEvent::Text(encode_utf8(doc.entities[chars_of(name)]))),
            ),
            DocState {
                expanded_total: (doc.expanded_total + encode_utf8(
                    doc.entities[chars_of(name)],
                ).len()) as usize,
                ..doc
            },
        ),
{
    let m = doc.entities;
    let n = chars_of(name);
    crate::laws::law_plain_value_length(
        m,
        n,
        doc.limits.max_depth as nat,
        doc.limits.max_expanded_bytes as nat,
    );
    law_plain_entity_text_is_its_value(m, n, doc.limits.max_depth as nat);
}

/// Content inside the root element is reported as it was read: text, a
/// CDATA section and a processing instruction come out unchanged, a
/// character reference as the character it names, and none of them changes
/// the document's state. A processing instruction is reported so at any
/// depth, outside the root element too.
pub proof fn law_content_is_reported_as_read(doc: DocState, tok: SpecToken, pos: Position)
    ensures
        doc.stack.len() > 0 ==> (tok matches SpecToken::Text(s) ==> handle(doc, tok, pos) == (
            Ok::<Option<SpecEvent>, crate::error::ErrorKind>(Some(SpecEvent::Text(s))),
            doc,
        )),
        doc.stack.len() > 0 ==> (tok matches SpecToken::CData(s) ==> handle(doc, tok, pos) == (
            Ok::<Option<SpecEvent>, crate::error::ErrorKind>(Some(SpecEvent::CData(s))),
            doc,
        )),
        doc.stack.len() > 0 ==> (tok matches SpecToken::CharRef(c) ==> handle(doc, tok, pos) == (
            Ok::<Option<SpecEvent>, crate::error::ErrorKind>(
                Some(SpecEvent::Text(encode_utf8(seq![c]))),
            ),
            doc,
        )),
        tok matches SpecToken::ProcessingInstruction { target, body } ==> handle(doc, tok, pos) == (
            Ok::<Option<SpecEvent>, crate::error::ErrorKind>(
                Some(SpecEvent::ProcessingInstruction { target, body }),
            ),
            doc,
        ),
{
}

/// An end tag that names the innermost open element closes it: the event
/// names it, and the element is taken off the stack and nothing else of the
/// state changes but the phase, which moves to the epilog when the root
/// element closes.
pub proof fn law_end_tag_closes_innermost(doc: DocState, name: Seq<u8>, pos: Position)
    requires
        doc.stack.len() > 0,
        doc.stack.last() == name,
    ensures
        handle(doc, SpecToken::EndTag(name), pos).0 == Ok::<
            Option<SpecEvent>,
            crate::error::ErrorKind,
        >(Some(SpecEvent::EndElement(name))),
        handle(doc, SpecToken::EndTag(name), pos).1.stack == doc.stack.drop_last(),
        handle(doc, SpecToken::EndTag(name), pos).1.entities == doc.entities,
        handle(doc, SpecToken::EndTag(name), pos).1.expanded_total == doc.expanded_total,
        handle(doc, SpecToken::EndTag(name), pos).1.phase == (if doc.stack.len() == 1 {
            Phase::Epilog
        } else {
            doc.phase
        }),
{
}

} // verus!
