//! Well-formedness checker: the parser layer.
//!
//! Takes tokens from the lexer and emits events once the well-formedness
//! constraints of XML 1.0 section 2.1 hold:
//!
//! - exactly one root element;
//! - every start tag has a matching end tag, properly nested;
//! - the XML declaration, if present, comes first;
//! - the document type declaration appears at most once, in the prolog;
//! - attribute names are unique per element;
//! - no character data outside the root element;
//! - entity references resolve, within the expansion limits.
use vstd::prelude::*;
use vstd::string::*;
use vstd::utf8::*;
use crate::entities::{
    builtin_entity, builtin_text, entity_text, expansion_len, find_byte, find_byte_from, lemma_find_byte,
    parse_internal_subset, subset_declarations, is_xml_ws, EntityTable, ExpansionLimits,
};
use crate::error::{start_position, ErrorKind, Position, XmlError};
use crate::event::{Event, SpecEvent};
use crate::grammar::{input_fits, lemma_next_token_progress, next_token};
use crate::lexer::{not_well_formed_str, not_well_formed_str_end, Lexer};
use crate::text::{debug_str, digits_text, number_text, str_debug_text, str_eq, string_push};
use crate::token::{attrs_view, Attr, SpecAttr, SpecToken, Token};

verus! {

/// Where the parser is in the document.
#[derive(Copy, Clone, Debug, PartialEq, Eq, Structural)]
pub enum Phase {
    /// Before any element: XML declaration, DOCTYPE, comments and PIs.
    Prolog,
    /// Inside the root element.
    Body,
    /// After the root element has closed: only comments, PIs and white
    /// space (section 2.1).
    Epilog,
}

/// What the parser knows of the document, apart from the lexer.
pub struct DocState {
    /// The names of the open elements, outermost first.
    pub stack: Seq<Seq<u8>>,
    pub phase: Phase,
    pub saw_xmldecl: bool,
    pub saw_doctype: bool,
    /// Whether an event has been reported yet.
    pub saw_event: bool,
    /// The end of an empty-element tag, still to be reported.
    pub pending_end: Option<Seq<u8>>,
    /// The entities declared in the DOCTYPE's internal subset.
    pub entities: Map<Seq<char>, Seq<char>>,
    pub limits: ExpansionLimits,
    /// Bytes of entity expansion counted so far in this document.
    pub expanded_total: usize,
}

/// The text of a byte string, when it is UTF-8 (entity names are looked up
/// by their characters).
pub open spec fn chars_of(b: Seq<u8>) -> Seq<char> {
    decode_utf8(b)
}

/// No two attributes share a name (section 3.1, Unique Att Spec).
pub open spec fn attr_names_unique(attrs: Seq<SpecAttr>) -> bool {
    forall|i: int, j: int| 0 <= j < i < attrs.len() ==> attrs[i].name != attrs[j].name
}

/// Every byte is XML white space.
pub open spec fn all_ws(s: Seq<u8>) -> bool {
    forall|i: int| 0 <= i < s.len() ==> is_xml_ws(#[trigger] s[i])
}

/// The name has two colons or more.
pub open spec fn qname_has_two_colons(b: Seq<u8>) -> bool {
    match find_byte(b, 0, 0x3Au8) {
        None => false,
        Some(k) => find_byte(b, k + 1, 0x3Au8) is Some,
    }
}

/// A qualified name (Namespaces in XML, section 3): no colon, or exactly one
/// colon with a non-empty prefix before it and a non-empty local part after
/// it.
pub open spec fn qname_ok(b: Seq<u8>) -> bool {
    match find_byte(b, 0, 0x3Au8) {
        None => true,
        Some(k) => 0 < k && k + 1 < b.len() && find_byte(b, k + 1, 0x3Au8) is None,
    }
}

/// Why a name is no qualified name.
pub open spec fn qname_error(name: Seq<char>) -> Seq<char> {
    if qname_has_two_colons(encode_utf8(name)) {
        "QName "@ + str_debug_text(name) + " has more than one colon"@
    } else {
        "QName "@ + str_debug_text(name) + " has empty prefix or local part"@
    }
}

/// A not-well-formed error with the given reason at `pos`.
pub open spec fn doc_error_at(pos: Position, reason: Seq<char>) -> ErrorKind {
    ErrorKind::NotWellFormed(pos, reason)
}


/// True when an attribute before the `i`-th has the same name.
pub open spec fn has_earlier_twin(attrs: Seq<SpecAttr>, i: int) -> bool {
    exists|j: int| 0 <= j < i && #[trigger] attrs[j].name == attrs[i].name
}

/// The first attribute, from the `i`-th on, whose name an earlier one
/// already has.
pub open spec fn first_duplicate(attrs: Seq<SpecAttr>, i: int) -> Option<int>
    decreases attrs.len() - i,
{
    if i < 0 || i >= attrs.len() {
        None
    } else if has_earlier_twin(attrs, i) {
        Some(i)
    } else {
        first_duplicate(attrs, i + 1)
    }
}

/// What `first_duplicate` finds, and that finding none means the names are
/// unique.
pub proof fn lemma_first_duplicate(attrs: Seq<SpecAttr>, i: int)
    requires
        0 <= i,
        forall|k: int| 0 <= k < i ==> !has_earlier_twin(attrs, k),
    ensures
        first_duplicate(attrs, i) is None <==> attr_names_unique(attrs),
        first_duplicate(attrs, i) matches Some(k) ==> i <= k < attrs.len() && has_earlier_twin(
            attrs,
            k,
        ),
    decreases attrs.len() - i,
{
    if i < attrs.len() && !has_earlier_twin(attrs, i) {
        lemma_first_duplicate(attrs, i + 1);
    } else if i >= attrs.len() {
        assert forall|a: int, b: int| 0 <= b < a < attrs.len() implies attrs[a].name
            != attrs[b].name by {
            assert(!has_earlier_twin(attrs, a));
        }
    }
}

/// Why a list of attributes is refused: the first name that occurs twice.
pub open spec fn duplicate_reason(attrs: Seq<SpecAttr>) -> Seq<char> {
    "duplicate attribute "@ + str_debug_text(chars_of(attrs[first_duplicate(attrs, 0).unwrap()].name))
}

/// A start tag or empty-element tag named `name`.
pub open spec fn handle_start(
    doc: DocState,
    name: Seq<u8>,
    attributes: Seq<SpecAttr>,
    empty: bool,
    pos: Position,
) -> (
    Result<Option<SpecEvent>, ErrorKind>,
    DocState,
) {
    if doc.phase == Phase::Epilog {
        (Err(doc_error_at(pos, "second root element not allowed"@)), doc)
    } else if first_duplicate(attributes, 0) is Some {
        (Err(doc_error_at(pos, duplicate_reason(attributes))), doc)
    } else {
        (
            Ok(Some(SpecEvent::StartElement { name, attributes })),
            DocState {
                stack: doc.stack.push(name),
                phase: Phase::Body,
                pending_end: if empty {
                    Some(name)
                } else {
                    doc.pending_end
                },
                ..doc
            },
        )
    }
}

/// An entity reference `&name;` inside the root element: a predefined entity
/// gives its text; a declared one is measured against the limits and the
/// document-wide running total, and then gives its replacement text; any
/// other is an error.
pub open spec fn handle_entity_ref(doc: DocState, name: Seq<u8>, pos: Position) -> (
    Result<Option<SpecEvent>, ErrorKind>,
    DocState,
) {
    if builtin_text(name) is Some {
        (Ok(Some(SpecEvent::Text(builtin_text(name).unwrap()))), doc)
    } else if doc.entities.contains_key(chars_of(name)) {
        match expansion_len(
            doc.entities,
            chars_of(name),
            doc.limits.max_depth as nat,
            doc.limits.max_expanded_bytes as nat,
        ).0 {
            Err(reason) => (Err(doc_error_at(pos, reason)), doc),
            Ok(added) => {
                let total = if doc.expanded_total + added > usize::MAX {
                    usize::MAX
                } else {
                    (doc.expanded_total + added) as usize
                };
                let doc2 = DocState { expanded_total: total, ..doc };
                if total > doc.limits.max_expanded_bytes {
                    (Err(doc_error_at(pos, 
                        "cumulative entity expansion exceeded "@ + digits_text(
                            doc.limits.max_expanded_bytes as nat,
                            10,
                        ) + " bytes — possible quadratic-blowup payload"@,
                    )), doc2)
                } else {
                    match entity_text(doc.entities, chars_of(name), doc.limits.max_depth as nat) {
                        Ok(t) => (Ok(Some(SpecEvent::Text(encode_utf8(t)))), doc2),
                        Err(reason) => (Err(doc_error_at(pos, reason)), doc2),
                    }
                }
            },
        }
    } else {
        (Err(doc_error_at(pos, "undeclared entity "@ + str_debug_text(chars_of(name)))), doc)
    }
}

/// What one token does to the document: the event it gives (`None` when it
/// is absorbed, as white space outside the root element is), or the
/// well-formedness error it raises, and the new state.
pub open spec fn handle(doc: DocState, tok: SpecToken, pos: Position) -> (
    Result<Option<SpecEvent>, ErrorKind>,
    DocState,
) {
    match tok {
        SpecToken::XmlDecl(d) => if doc.saw_xmldecl {
            (Err(doc_error_at(pos, "duplicate XML declaration"@)), doc)
        } else if doc.saw_event || doc.phase != Phase::Prolog || doc.saw_doctype || doc.stack.len()
            > 0 {
            (Err(doc_error_at(pos, "XML declaration must be the first thing in the document"@)), doc)
        } else {
            (Ok(Some(SpecEvent::XmlDecl(d))), DocState { saw_xmldecl: true, ..doc })
        },
        SpecToken::Doctype { name, body } => if doc.saw_doctype {
            (Err(doc_error_at(pos, "duplicate DOCTYPE declaration"@)), doc)
        } else if doc.phase != Phase::Prolog {
            (Err(doc_error_at(pos, "DOCTYPE must appear before the root element"@)), doc)
        } else {
            (
                Ok(Some(SpecEvent::Doctype { name, body })),
                DocState {
                    saw_doctype: true,
                    entities: subset_declarations(body, 0, doc.entities),
                    ..doc
                },
            )
        },
        SpecToken::StartTag { name, attributes } => handle_start(doc, name, attributes, false, pos),
        SpecToken::EmptyTag { name, attributes } => handle_start(doc, name, attributes, true, pos),
        SpecToken::EndTag(name) => if doc.stack.len() == 0 {
            (Err(doc_error_at(pos, 
                "unexpected end tag </"@ + chars_of(name) + "> with no matching start"@,
            )), doc)
        } else if doc.stack.last() != name {
            (Err(doc_error_at(pos, 
                    "end tag </"@ + chars_of(name) + "> does not match start tag <"@ + chars_of(
                        doc.stack.last(),
                    ) + ">"@,
                )), DocState { stack: doc.stack.drop_last(), ..doc })
        } else {
            (
                Ok(Some(SpecEvent::EndElement(name))),
                DocState {
                    stack: doc.stack.drop_last(),
                    phase: if doc.stack.len() == 1 {
                        Phase::Epilog
                    } else {
                        doc.phase
                    },
                    ..doc
                },
            )
        },
        SpecToken::Text(s) => if doc.stack.len() == 0 {
            if !all_ws(s) {
                (Err(doc_error_at(pos, "non-whitespace text outside the root element"@)), doc)
            } else {
                (Ok(None), doc)
            }
        } else {
            (Ok(Some(SpecEvent::Text(s))), doc)
        },
        SpecToken::CData(s) => if doc.stack.len() == 0 {
            (Err(doc_error_at(pos, "CDATA section outside the root element"@)), doc)
        } else {
            (Ok(Some(SpecEvent::CData(s))), doc)
        },
        SpecToken::Comment(s) => (Ok(Some(SpecEvent::Comment(s))), doc),
        SpecToken::ProcessingInstruction { target, body } => (
            Ok(Some(SpecEvent::ProcessingInstruction { target, body })),
            doc,
        ),
        SpecToken::EntityRef(name) => if doc.stack.len() == 0 {
            (Err(doc_error_at(pos, "entity reference outside the root element"@)), doc)
        } else {
            handle_entity_ref(doc, name, pos)
        },
        SpecToken::CharRef(c) => if doc.stack.len() == 0 {
            (Err(doc_error_at(pos, "character reference outside the root element"@)), doc)
        } else {
            (Ok(Some(SpecEvent::Text(encode_utf8(seq![c])))), doc)
        },
    }
}

/// The end of the input: an error while an element is open or before any
/// element, the end of the event stream otherwise.
pub open spec fn handle_eof(doc: DocState, pos: Position) -> Result<Option<SpecEvent>, ErrorKind> {
    if doc.stack.len() > 0 {
        Err(doc_error_at(pos, "unclosed element "@ + str_debug_text(chars_of(doc.stack.last()))))
    } else if doc.phase == Phase::Prolog {
        Err(doc_error_at(pos, "no root element"@))
    } else {
        Ok(None)
    }
}

/// One token handled: what `handle` gives, and a reported event marks the
/// document as having reported one.
pub open spec fn step(doc: DocState, tok: SpecToken, pos: Position) -> (
    Result<Option<SpecEvent>, ErrorKind>,
    DocState,
) {
    let (r, d) = handle(doc, tok, pos);
    match r {
        Ok(Some(_)) => (r, DocState { saw_event: true, ..d }),
        _ => (r, d),
    }
}

/// Tokens are taken from `p` on until one gives an event, an error, or the
/// input ends: the outcome, the lexer's position, and the new state.
pub open spec fn event_loop(src: Seq<u8>, p: Position, doc: DocState) -> (
    Result<Option<SpecEvent>, ErrorKind>,
    Position,
    DocState,
)
    decreases src.len() - p.byte_offset,
    when src.len() <= usize::MAX && p.byte_offset <= src.len()
{
    let (r, q) = next_token(src, p);
    match r {
        Err(e) => (Err(e), q, doc),
        Ok(None) => (handle_eof(doc, q), q, doc),
        Ok(Some(tok)) => {
            let (hr, doc2) = step(doc, tok, p);
            match hr {
                Err(e) => (Err(e), q, doc2),
                Ok(Some(ev)) => (Ok(Some(ev)), q, doc2),
                Ok(None) => {
                    proof {
                        lemma_next_token_progress(src, p);
                    }
                    event_loop(src, q, doc2)
                },
            }
        },
    }
}

/// The next event of the document: the end of a pending empty-element tag
/// first, then whatever the following tokens give.
pub open spec fn next_event(src: Seq<u8>, p: Position, doc: DocState) -> (
    Result<Option<SpecEvent>, ErrorKind>,
    Position,
    DocState,
) {
    match doc.pending_end {
        Some(name) => {
            let stack = doc.stack.drop_last();
            (
                Ok(Some(SpecEvent::EndElement(name))),
                p,
                DocState {
                    stack,
                    phase: if stack.len() == 0 {
                        Phase::Epilog
                    } else {
                        doc.phase
                    },
                    pending_end: None,
                    saw_event: true,
                    ..doc
                },
            )
        },
        None => event_loop(src, p, doc),
    }
}

/// The state of a parser that has read nothing yet.
pub open spec fn initial_doc(limits: ExpansionLimits) -> DocState {
    DocState {
        stack: Seq::empty(),
        phase: Phase::Prolog,
        saw_xmldecl: false,
        saw_doctype: false,
        saw_event: false,
        pending_end: None,
        entities: Map::empty(),
        limits,
        expanded_total: 0,
    }
}

/// The consistency every reachable state keeps: a pending end belongs to the
/// innermost open element; after the root element nothing is open; before
/// it, nothing was opened; before the first event, nothing was seen.
pub open spec fn doc_inv(doc: DocState) -> bool {
    &&& (doc.pending_end matches Some(n) ==> doc.stack.len() > 0 && doc.stack.last() == n)
    &&& (doc.phase == Phase::Epilog ==> doc.stack.len() == 0 && doc.pending_end is None)
    &&& (doc.phase == Phase::Prolog ==> doc.stack.len() == 0 && doc.pending_end is None)
    &&& (!doc.saw_event ==> doc.phase == Phase::Prolog && !doc.saw_xmldecl && !doc.saw_doctype)
}

/// The event outcome agrees with what the spec says.
pub open spec fn event_outcome<'a>(
    res: Result<Option<Event<'a>>, XmlError>,
    s: Result<Option<SpecEvent>, ErrorKind>,
) -> bool {
    match (res, s) {
        (Ok(None), Ok(None)) => true,
        (Ok(Some(e)), Ok(Some(se))) => e@ == se,
        (Err(e), Err(k)) => e.kind() == k,
        _ => false,
    }
}

/// The parser: a lexer and what the well-formedness rules need to remember.
pub struct Parser<'a> {
    lexer: Lexer<'a>,
    stack: Vec<&'a str>,
    phase: Phase,
    saw_xmldecl: bool,
    saw_doctype: bool,
    /// Whether an event has been reported: an XML declaration may only come
    /// before any.
    saw_event: bool,
    /// After the `StartElement` of an empty-element tag like `<br/>`, the
    /// matching `EndElement` is held here for the next call.
    pending_end: Option<&'a str>,
    /// Where the token being handled starts: the position of the parser's
    /// own errors.
    last_pos: Position,
    /// Entities declared by `<!ENTITY ...>` in the DOCTYPE internal subset.
    entities: EntityTable,
    expansion_limits: ExpansionLimits,
    /// Bytes of entity expansion counted so far in this document. The budget
    /// per reference alone does not catch the quadratic-blowup pattern (many
    /// references to one benign-looking entity); this running total does.
    expanded_bytes_total: usize,
}

impl<'a> Parser<'a> {
    /// The input's bytes.
    pub closed spec fn source(&self) -> Seq<u8> {
        self.lexer.source()
    }

    /// The lexer's position.
    pub closed spec fn position(&self) -> Position {
        self.lexer.position()
    }

    /// What the parser knows of the document.
    pub closed spec fn doc(&self) -> DocState {
        DocState {
            stack: self.stack@.map_values(|s: &'a str| s.spec_bytes()),
            phase: self.phase,
            saw_xmldecl: self.saw_xmldecl,
            saw_doctype: self.saw_doctype,
            saw_event: self.saw_event,
            pending_end: match self.pending_end {
                Some(n) => Some(n.spec_bytes()),
                None => None,
            },
            entities: self.entities@,
            limits: self.expansion_limits,
            expanded_total: self.expanded_bytes_total,
        }
    }

    /// The lexer is well formed and between tokens, and the state
    /// consistent.
    pub closed spec fn wf(&self) -> bool {
        &&& self.lexer.wf()
        &&& self.lexer.at_boundary()
        &&& doc_inv(self.doc())
    }

    /// A parser at the start of `src`, with the default expansion limits.
    pub fn new(src: &'a str) -> (p: Self)
        requires
            input_fits(src.spec_bytes().len()),
        ensures
            p.wf(),
            p.source() == src.spec_bytes(),
            p.position() == start_position(),
            p.doc() == initial_doc(
                ExpansionLimits {
                    max_depth: crate::entities::DEFAULT_MAX_DEPTH,
                    max_expanded_bytes: crate::entities::DEFAULT_MAX_EXPANDED_BYTES,
                },
            ),
    {
        let p = Self {
            lexer: Lexer::new(src),
            stack: Vec::new(),
            phase: Phase::Prolog,
            saw_xmldecl: false,
            saw_doctype: false,
            saw_event: false,
            pending_end: None,
            last_pos: Position::start(),
            entities: EntityTable::new(),
            expansion_limits: ExpansionLimits::default(),
            expanded_bytes_total: 0,
        };
        assert(p.doc().stack =~= Seq::<Seq<u8>>::empty());
        p
    }

    /// The same parser with other entity-expansion limits. The defaults are
    /// conservative and suit adversarial input; lower them for stricter
    /// mitigation.
    pub fn with_expansion_limits(self, limits: ExpansionLimits) -> (p: Self)
        requires
            self.wf(),
        ensures
            p.wf(),
            p.source() == self.source(),
            p.position() == self.position(),
            p.doc() == (DocState { limits, ..self.doc() }),
    {
        let mut s = self;
        s.expansion_limits = limits;
        s
    }

    /// The lexer's current position.
    fn lexer_pos(&self) -> (p: Position)
        ensures
            p == self.position(),
    {
        self.lexer.current_position()
    }

    /// The end of the input: an error, reported at the end, when an element
    /// is still open or no element was seen.
    fn handle_eof(&self) -> (res: Result<Option<Event<'a>>, XmlError>)
        requires
            self.wf(),
        ensures
            event_outcome(res, handle_eof(self.doc(), self.position())),
    {
        let pos = self.lexer_pos();
        if self.stack.len() > 0 {
            proof {
                encode_utf8_decode_utf8(self.stack@.last()@);
            }
            let mut reason = String::from_str("unclosed element ");
            reason.append(debug_str(self.stack[self.stack.len() - 1]).as_str());
            return Err(XmlError::NotWellFormed { pos, reason });
        }
        if self.phase == Phase::Prolog {
            return Err(
                XmlError::NotWellFormed {
                    pos,
                    reason: String::from_str("no root element"),
                },
            );
        }
        Ok(None)
    }

    /// The next event, or `None` at the end of a well-formed document. What
    /// the spec's `next_event` says: the same event or error, the same lexer
    /// position and the same document state afterwards.
    pub fn next_event(&mut self) -> (res: Result<Option<Event<'a>>, XmlError>)
        requires
            old(self).wf(),
        ensures
            final(self).wf(),
            final(self).source() == old(self).source(),
            event_outcome(
                res,
                next_event(old(self).source(), old(self).position(), old(self).doc()).0,
            ),
            final(self).position() == next_event(
                old(self).source(),
                old(self).position(),
                old(self).doc(),
            ).1,
            final(self).doc() == next_event(
                old(self).source(),
                old(self).position(),
                old(self).doc(),
            ).2,
    {
        if let Some(name) = self.pending_end.take() {
            // The empty-element tag pushed its name; this closes it, and the
            // root when it was the root.
            let ghost before = self.stack@;
            self.stack.pop();
            assert(self.stack@.map_values(|s: &'a str| s.spec_bytes()) =~= before.map_values(
                |s: &'a str| s.spec_bytes(),
            ).drop_last());
            if self.stack.len() == 0 {
                self.phase = Phase::Epilog;
            }
            self.saw_event = true;
            return Ok(Some(Event::EndElement(name)));
        }
        let ghost src = self.source();
        let ghost p0 = self.position();
        let ghost d0 = self.doc();
        proof {
            self.lexer.lemma_wf();
        }
        loop
            invariant
                self.wf(),
                self.pending_end is None,
                self.source() == src,
                src == old(self).source(),
                p0 == old(self).position(),
                d0 == old(self).doc(),
                src.len() <= usize::MAX,
                self.position().byte_offset <= src.len(),
                next_event(src, p0, d0) == event_loop(src, self.position(), self.doc()),
            decreases src.len() - self.position().byte_offset,
        {
            let ghost p = self.position();
            let ghost d = self.doc();
            proof {
                self.lexer.lemma_wf();
                lemma_next_token_progress(src, p);
                lemma_event_loop_keeps_inv(src, p, d);
            }
            let tok_pos = self.lexer_pos();
            let tok = match self.lexer.next_token() {
                Ok(Some(t)) => t,
                Ok(None) => {
                    return self.handle_eof();
                },
                Err(e) => {
                    return Err(e);
                },
            };
            self.last_pos = tok_pos;
            proof {
                lemma_step_keeps_inv(d, tok@, tok_pos);
            }
            match self.handle(tok) {
                Err(e) => {
                    return Err(e);
                },
                Ok(None) => {},
                Ok(Some(ev)) => {
                    self.saw_event = true;
                    return Ok(Some(ev));
                },
            }
        }
    }

    /// The QName check of Namespaces in XML (section 3): at most one colon,
    /// with a non-empty prefix and local part. Pure XML 1.0 allows several
    /// colons in a Name, so this is for callers that opt into namespace
    /// processing; the parser does not apply it.
    #[allow(dead_code)]
    fn check_qname(name: &str, pos: Position) -> (res: Result<(), XmlError>)
        ensures
            res is Ok == qname_ok(name.spec_bytes()),
            res matches Err(e) ==> e.kind() == ErrorKind::NotWellFormed(pos, qname_error(name@)),
    {
        let b = name.as_bytes();
        let n = b.len();
        proof {
            lemma_find_byte(b@, 0, 0x3Au8);
        }
        match find_byte_from(b, 0, 0x3A) {
            None => Ok(()),
            Some(k) => {
                proof {
                    lemma_find_byte(b@, k + 1, 0x3Au8);
                }
                if find_byte_from(b, k + 1, 0x3A).is_some() {
                    return Err(
                        not_well_formed_str(pos, "QName ", name, " has more than one colon"),
                    );
                }
                if k == 0 || k + 1 >= n {
                    return Err(
                        not_well_formed_str(pos, "QName ", name, " has empty prefix or local part"),
                    );
                }
                Ok(())
            },
        }
    }

    /// Per section 3.1 (Unique Att Spec): no element has two attributes with
    /// the same name. The error names the first attribute whose name an
    /// earlier one already has.
    fn check_unique_attrs(attrs: &[Attr<'a>], pos: Position) -> (res: Result<(), XmlError>)
        ensures
            res is Ok == (first_duplicate(attrs_view(attrs@), 0) is None),
            res matches Err(e) ==> e.kind() == doc_error_at(
                pos,
                duplicate_reason(attrs_view(attrs@)),
            ),
    {
        let ghost v = attrs_view(attrs@);
        let n = attrs.len();
        let mut i: usize = 0;
        while i < n
            invariant
                n == attrs@.len(),
                v == attrs_view(attrs@),
                v.len() == n,
                i <= n,
                first_duplicate(v, 0) == first_duplicate(v, i as int),
            decreases n - i,
        {
            let mut j: usize = 0;
            while j < i
                invariant
                    n == attrs@.len(),
                    v == attrs_view(attrs@),
                    v.len() == n,
                    i < n,
                    j <= i,
                    first_duplicate(v, 0) == first_duplicate(v, i as int),
                    forall|b: int| 0 <= b < j ==> v[i as int].name != v[b].name,
                decreases i - j,
            {
                if str_eq(attrs[i].name, attrs[j].name) {
                    assert(v[i as int].name == v[j as int].name);
                    assert(has_earlier_twin(v, i as int));
                    assert(first_duplicate(v, i as int) == Some(i as int));
                    assert(v[i as int].name == attrs@[i as int].name.spec_bytes());
                    proof {
                        encode_utf8_decode_utf8(attrs@[i as int].name@);
                    }
                    assert(chars_of(v[i as int].name) == attrs@[i as int].name@);
                    return Err(not_well_formed_str_end(pos, "duplicate attribute ", attrs[i].name));
                }
                j = j + 1;
            }
            assert(!has_earlier_twin(v, i as int));
            i = i + 1;
        }
        Ok(())
    }

    /// A start tag or empty-element tag.
    fn handle_start(&mut self, name: &'a str, attributes: Vec<Attr<'a>>, empty: bool) -> (res: Result<
        Option<Event<'a>>,
        XmlError,
    >)
        requires
            old(self).wf(),
            old(self).pending_end is None,
        ensures
            final(self).lexer == old(self).lexer,
            final(self).last_pos == old(self).last_pos,
            event_outcome(
                res,
                handle_start(
                    old(self).doc(),
                    name.spec_bytes(),
                    attrs_view(attributes@),
                    empty,
                    old(self).last_pos,
                ).0,
            ),
            final(self).doc() == handle_start(
                old(self).doc(),
                name.spec_bytes(),
                attrs_view(attributes@),
                empty,
                old(self).last_pos,
            ).1,
    {
        if self.phase == Phase::Epilog {
            return Err(
                XmlError::NotWellFormed {
                    pos: self.last_pos,
                    reason: String::from_str("second root element not allowed"),
                },
            );
        }
        match Self::check_unique_attrs(attributes.as_slice(), self.last_pos) {
            Ok(()) => {},
            Err(e) => {
                return Err(e);
            },
        }
        let ghost before = self.stack@;
        self.stack.push(name);
        assert(self.stack@.map_values(|s: &'a str| s.spec_bytes()) =~= before.map_values(
            |s: &'a str| s.spec_bytes(),
        ).push(name.spec_bytes()));
        if empty {
            self.pending_end = Some(name);
        }
        self.phase = Phase::Body;
        Ok(Some(Event::StartElement { name, attributes }))
    }

    /// An end tag: it must match the innermost open element.
    fn handle_end(&mut self, name: &'a str) -> (res: Result<Option<Event<'a>>, XmlError>)
        requires
            old(self).wf(),
            old(self).pending_end is None,
        ensures
            final(self).lexer == old(self).lexer,
            final(self).last_pos == old(self).last_pos,
            event_outcome(
                res,
                handle(old(self).doc(), SpecToken::EndTag(name.spec_bytes()), old(self).last_pos).0,
            ),
            final(self).doc() == handle(
                old(self).doc(),
                SpecToken::EndTag(name.spec_bytes()),
                old(self).last_pos,
            ).1,
    {
        let ghost before = self.stack@;
        proof {
            encode_utf8_decode_utf8(name@);
        }
        let top = match self.stack.pop() {
            Some(t) => t,
            None => {
                let mut reason = String::from_str("unexpected end tag </");
                reason.append(name);
                reason.append("> with no matching start");
                return Err(XmlError::NotWellFormed { pos: self.last_pos, reason });
            },
        };
        assert(self.stack@.map_values(|s: &'a str| s.spec_bytes()) =~= before.map_values(
            |s: &'a str| s.spec_bytes(),
        ).drop_last());
        proof {
            encode_utf8_decode_utf8(top@);
        }
        if !str_eq(top, name) {
            let mut reason = String::from_str("end tag </");
            reason.append(name);
            reason.append("> does not match start tag <");
            reason.append(top);
            reason.append(">");
            return Err(XmlError::NotWellFormed { pos: self.last_pos, reason });
        }
        if self.stack.len() == 0 {
            self.phase = Phase::Epilog;
        }
        Ok(Some(Event::EndElement(name)))
    }

    /// An entity reference inside the root element.
    fn handle_entity_ref(&mut self, name: &'a str) -> (res: Result<Option<Event<'a>>, XmlError>)
        requires
            old(self).wf(),
            old(self).pending_end is None,
        ensures
            final(self).lexer == old(self).lexer,
            final(self).last_pos == old(self).last_pos,
            final(self).stack == old(self).stack,
            event_outcome(
                res,
                handle_entity_ref(old(self).doc(), name.spec_bytes(), old(self).last_pos).0,
            ),
            final(self).doc() == handle_entity_ref(
                old(self).doc(),
                name.spec_bytes(),
                old(self).last_pos,
            ).1,
    {
        proof {
            encode_utf8_decode_utf8(name@);
        }
        if let Some(text) = builtin_entity(name) {
            return Ok(Some(Event::Text(String::from_str(text))));
        }
        if self.entities.is_declared(name) {
            let added = match self.entities.validate_expansion(
                name,
                self.expansion_limits,
                self.last_pos,
            ) {
                Ok(a) => a,
                Err(e) => {
                    return Err(e);
                },
            };
            self.expanded_bytes_total = self.expanded_bytes_total.saturating_add(added);
            if self.expanded_bytes_total > self.expansion_limits.max_expanded_bytes {
                let mut reason = String::from_str("cumulative entity expansion exceeded ");
                reason.append(
                    number_text(self.expansion_limits.max_expanded_bytes as u64, 10).as_str(),
                );
                reason.append(" bytes — possible quadratic-blowup payload");
                return Err(XmlError::NotWellFormed { pos: self.last_pos, reason });
            }
            return match self.entities.expand(name, self.expansion_limits, self.last_pos) {
                Ok(text) => Ok(Some(Event::Text(text))),
                Err(e) => Err(e),
            };
        }
        Err(not_well_formed_str_end(self.last_pos, "undeclared entity ", name))
    }

    /// What one token does: the event it gives, `None` when it is absorbed,
    /// or the well-formedness error it raises.
    fn handle(&mut self, tok: Token<'a>) -> (res: Result<Option<Event<'a>>, XmlError>)
        requires
            old(self).wf(),
            old(self).pending_end is None,
        ensures
            final(self).lexer == old(self).lexer,
            final(self).last_pos == old(self).last_pos,
            event_outcome(res, handle(old(self).doc(), tok@, old(self).last_pos).0),
            final(self).doc() == handle(old(self).doc(), tok@, old(self).last_pos).1,
    {
        match tok {
            Token::XmlDecl(d) => {
                if self.saw_xmldecl {
                    return Err(
                        XmlError::NotWellFormed {
                            pos: self.last_pos,
                            reason: String::from_str("duplicate XML declaration"),
                        },
                    );
                }
                if self.saw_event || self.phase != Phase::Prolog || self.saw_doctype
                    || self.stack.len() > 0 {
                    return Err(
                        XmlError::NotWellFormed {
                            pos: self.last_pos,
                            reason: String::from_str(
                                "XML declaration must be the first thing in the document",
                            ),
                        },
                    );
                }
                self.saw_xmldecl = true;
                Ok(Some(Event::XmlDecl(d)))
            },
            Token::Doctype { name, body } => {
                if self.saw_doctype {
                    return Err(
                        XmlError::NotWellFormed {
                            pos: self.last_pos,
                            reason: String::from_str("duplicate DOCTYPE declaration"),
                        },
                    );
                }
                if self.phase != Phase::Prolog {
                    return Err(
                        XmlError::NotWellFormed {
                            pos: self.last_pos,
                            reason: String::from_str("DOCTYPE must appear before the root element"),
                        },
                    );
                }
                self.saw_doctype = true;
                parse_internal_subset(body, &mut self.entities);
                Ok(Some(Event::Doctype { name, body }))
            },
            Token::StartTag { name, attributes } => self.handle_start(name, attributes, false),
            Token::EmptyTag { name, attributes } => self.handle_start(name, attributes, true),
            Token::EndTag(name) => self.handle_end(name),
            Token::Text(s) => {
                if self.stack.len() == 0 {
                    if !is_all_ws(s) {
                        return Err(
                            XmlError::NotWellFormed {
                                pos: self.last_pos,
                                reason: String::from_str("non-whitespace text outside the root element"),
                            },
                        );
                    }
                    return Ok(None);
                }
                Ok(Some(Event::Text(String::from_str(s))))
            },
            Token::CData(s) => {
                if self.stack.len() == 0 {
                    return Err(
                        XmlError::NotWellFormed {
                            pos: self.last_pos,
                            reason: String::from_str("CDATA section outside the root element"),
                        },
                    );
                }
                Ok(Some(Event::CData(s)))
            },
            Token::Comment(s) => Ok(Some(Event::Comment(s))),
            Token::ProcessingInstruction { target, body } => {
                Ok(Some(Event::ProcessingInstruction { target, body }))
            },
            Token::EntityRef(name) => {
                if self.stack.len() == 0 {
                    return Err(
                        XmlError::NotWellFormed {
                            pos: self.last_pos,
                            reason: String::from_str("entity reference outside the root element"),
                        },
                    );
                }
                self.handle_entity_ref(name)
            },
            Token::CharRef(c) => {
                if self.stack.len() == 0 {
                    return Err(
                        XmlError::NotWellFormed {
                            pos: self.last_pos,
                            reason: String::from_str("character reference outside the root element"),
                        },
                    );
                }
                let mut text = String::new();
                string_push(&mut text, c);
                assert(text@ =~= seq![c]);
                Ok(Some(Event::Text(text)))
            },
        }
    }
}


/// Every token keeps the state consistent.
pub proof fn lemma_step_keeps_inv(doc: DocState, tok: SpecToken, pos: Position)
    requires
        doc_inv(doc),
        doc.pending_end is None,
    ensures
        doc_inv(step(doc, tok, pos).1),
        step(doc, tok, pos).0 matches Ok(None) ==> step(doc, tok, pos).1 == doc,
{
}

/// Every step of the parser keeps the state consistent.
pub proof fn lemma_next_event_keeps_inv(src: Seq<u8>, p: Position, doc: DocState)
    requires
        doc_inv(doc),
        src.len() <= usize::MAX,
        p.byte_offset <= src.len(),
    ensures
        doc_inv(next_event(src, p, doc).2),
        next_event(src, p, doc).2.pending_end is Some ==> next_event(src, p, doc).0 matches Ok(
            Some(SpecEvent::StartElement { .. }),
        ),
{
    if doc.pending_end is None {
        lemma_event_loop_keeps_inv(src, p, doc);
    }
}

/// Taking tokens until one gives an event keeps the state consistent.
pub proof fn lemma_event_loop_keeps_inv(src: Seq<u8>, p: Position, doc: DocState)
    requires
        doc_inv(doc),
        doc.pending_end is None,
        src.len() <= usize::MAX,
        p.byte_offset <= src.len(),
    ensures
        doc_inv(event_loop(src, p, doc).2),
        event_loop(src, p, doc).2.pending_end is Some ==> event_loop(src, p, doc).0 matches Ok(
            Some(SpecEvent::StartElement { .. }),
        ),
    decreases src.len() - p.byte_offset,
{
    lemma_next_token_progress(src, p);
    let (r, q) = next_token(src, p);
    if let Ok(Some(tok)) = r {
        lemma_step_keeps_inv(doc, tok, p);
        let (hr, doc2) = step(doc, tok, p);
        if hr matches Ok(None) {
            lemma_event_loop_keeps_inv(src, q, doc2);
        }
    }
}

/// True when the text is nothing but XML white space.
fn is_all_ws(s: &str) -> (r: bool)
    ensures
        r == all_ws(s.spec_bytes()),
{
    let b = s.as_bytes();
    let n = b.len();
    let mut i: usize = 0;
    while i < n
        invariant
            n == b@.len(),
            b@ == s.spec_bytes(),
            i <= n,
            forall|k: int| 0 <= k < i ==> is_xml_ws(#[trigger] b@[k]),
        decreases n - i,
    {
        let c = b[i];
        if !(c == 0x20 || c == 0x09 || c == 0x0D || c == 0x0A) {
            assert(!is_xml_ws(b@[i as int]));
            return false;
        }
        i = i + 1;
    }
    true
}

} // verus!
