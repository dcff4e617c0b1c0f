//! Properties of the library as a whole: what the well-formedness checker
//! guarantees of every event it emits, what the lexer guarantees of every
//! token, how a plain entity value is measured, and why reference cycles
//! between entities are always rejected. (That the lexer rests at character
//! boundaries is proved in `boundary`.)
use vstd::prelude::*;
use vstd::utf8::*;
use crate::entities::{
    entity_text, reference_text, run_end, value_text, ExpansionLimits, builtin_text, expansion_len, find_byte, lemma_find_byte, reference_len, value_expansion_len,
};
use crate::error::Position;
use crate::event::SpecEvent;
use crate::grammar::{
    bumped, comment_rest, cur, doctype_rest, lemma_next_token_progress, next_token, peek,
    scan_open_construct, scan_reference, tag_rest, text_rest, xmldecl_rest,
};
use crate::parser::{
    attr_names_unique, doc_inv, event_loop, handle, lemma_first_duplicate, next_event, step,
    DocState, Phase,
};
use crate::token::SpecToken;

verus! {

// ---------------------------------------------------------------------------
// The event stream
// ---------------------------------------------------------------------------

/// What one round of the event loop amounts to: the handling of a single
/// token on the state it was given (tokens that are absorbed change
/// nothing), or, with the state unchanged, an error from the lexer or the
/// end of the input.
pub proof fn lemma_event_loop_shape(src: Seq<u8>, p: Position, doc: DocState)
    requires
        src.len() <= usize::MAX,
        p.byte_offset <= src.len(),
    ensures
        ({
            let (r, q, d2) = event_loop(src, p, doc);
            ||| exists|tok: SpecToken, pos: Position|
                (r, d2) == #[trigger] step(doc, tok, pos) && !(r matches Ok(None))
            ||| d2 == doc && (r is Err || (r matches Ok(None) && doc.stack.len() == 0 && doc.phase
                != Phase::Prolog))
        }),
    decreases src.len() - p.byte_offset,
{
    lemma_next_token_progress(src, p);
    let (r, q) = next_token(src, p);
    if let Ok(Some(tok)) = r {
        let (hr, doc2) = step(doc, tok, p);
        if hr matches Ok(None) {
            assert(doc2 == doc);
            lemma_event_loop_shape(src, q, doc2);
        } else {
            assert(event_loop(src, p, doc).0 == step(doc, tok, p).0);
        }
    }
}

/// What one call of `next_event` amounts to when no end is pending: the
/// step of one token `w.0`, starting at `w.1`, that gave an event or an
/// error; or, with the state unchanged, an error of the lexer or the end.
pub proof fn lemma_next_event_step(src: Seq<u8>, p: Position, doc: DocState) -> (w: (
    SpecToken,
    Position,
))
    requires
        src.len() <= usize::MAX,
        p.byte_offset <= src.len(),
        doc.pending_end is None,
    ensures
        ({
            let (r, q, d2) = next_event(src, p, doc);
            ||| (r, d2) == step(doc, w.0, w.1) && !(r matches Ok(None))
            ||| d2 == doc && (r is Err || (r matches Ok(None) && doc.stack.len() == 0 && doc.phase
                != Phase::Prolog))
        }),
{
    lemma_event_loop_shape(src, p, doc);
    let (r, q, d2) = next_event(src, p, doc);
    choose|tok: SpecToken, pos: Position|
        (r, d2) == #[trigger] step(doc, tok, pos) && !(r matches Ok(None))
}

/// Elements nest: a `StartElement` opens its element, an `EndElement` closes
/// the innermost open element, which has the same name, and no other event
/// opens or closes anything (section 2.1, and the element-type match of
/// section 3).
pub proof fn law_elements_nest(src: Seq<u8>, p: Position, doc: DocState)
    requires
        doc_inv(doc),
        src.len() <= usize::MAX,
        p.byte_offset <= src.len(),
    ensures
        ({
            let (r, q, d2) = next_event(src, p, doc);
            match r {
                Ok(Some(SpecEvent::StartElement { name, .. })) => d2.stack == doc.stack.push(name),
                Ok(Some(SpecEvent::EndElement(name))) => doc.stack.len() > 0 && doc.stack.last()
                    == name && d2.stack == doc.stack.drop_last(),
                Ok(_) => d2.stack == doc.stack,
                Err(_) => true,
            }
        }),
{
    if doc.pending_end is None {
        lemma_next_event_step(src, p, doc);
    }
}

/// One root element: once the root has closed, no element starts again and
/// the document stays in its epilog; and once an element has been seen, the
/// prolog is over for good.
pub proof fn law_single_root(src: Seq<u8>, p: Position, doc: DocState)
    requires
        doc_inv(doc),
        src.len() <= usize::MAX,
        p.byte_offset <= src.len(),
    ensures
        doc.phase == Phase::Epilog ==> !(next_event(src, p, doc).0 matches Ok(
            Some(SpecEvent::StartElement { .. }),
        )) && next_event(src, p, doc).2.phase == Phase::Epilog,
        doc.phase != Phase::Prolog ==> next_event(src, p, doc).2.phase != Phase::Prolog,
{
    if doc.pending_end is None {
        lemma_next_event_step(src, p, doc);
    }
}

/// The event stream ends (`Ok(None)`) only when no element is open and an
/// element was seen: an unclosed element or a missing root is an error.
pub proof fn law_end_of_document(src: Seq<u8>, p: Position, doc: DocState)
    requires
        doc_inv(doc),
        src.len() <= usize::MAX,
        p.byte_offset <= src.len(),
    ensures
        next_event(src, p, doc).0 matches Ok(None) ==> next_event(src, p, doc).2.stack.len() == 0
            && next_event(src, p, doc).2.phase != Phase::Prolog,
{
    if doc.pending_end is None {
        lemma_next_event_step(src, p, doc);
    }
}

/// Every event that the checker emits respects the constraint it is about:
/// an element's attribute names are unique; the XML declaration comes first
/// and only once; the DOCTYPE comes once, in the prolog; character data and
/// CDATA sections only stand inside the root element.
pub proof fn law_events_are_well_formed(src: Seq<u8>, p: Position, doc: DocState)
    requires
        doc_inv(doc),
        src.len() <= usize::MAX,
        p.byte_offset <= src.len(),
    ensures
        ({
            let (r, q, d2) = next_event(src, p, doc);
            match r {
                Ok(Some(SpecEvent::StartElement { attributes, .. })) => attr_names_unique(
                    attributes,
                ),
                Ok(Some(SpecEvent::XmlDecl(_))) => !doc.saw_xmldecl && doc.phase == Phase::Prolog
                    && !doc.saw_doctype && doc.stack.len() == 0 && d2.saw_xmldecl,
                Ok(Some(SpecEvent::Doctype { .. })) => !doc.saw_doctype && doc.phase
                    == Phase::Prolog && d2.saw_doctype,
                Ok(Some(SpecEvent::Text(_))) => doc.stack.len() > 0,
                Ok(Some(SpecEvent::CData(_))) => doc.stack.len() > 0,
                _ => true,
            }
        }),
{
    if doc.pending_end is None {
        let (tok, pos) = lemma_next_event_step(src, p, doc);
        match tok {
            SpecToken::StartTag { attributes, .. } => lemma_first_duplicate(attributes, 0),
            SpecToken::EmptyTag { attributes, .. } => lemma_first_duplicate(attributes, 0),
            _ => {},
        }
    }
}

/// The XML declaration comes first: it is reported only while no event has
/// been, and every event reported marks the document as having reported one,
/// for good.
pub proof fn law_xml_declaration_first(src: Seq<u8>, p: Position, doc: DocState)
    requires
        doc_inv(doc),
        src.len() <= usize::MAX,
        p.byte_offset <= src.len(),
    ensures
        next_event(src, p, doc).0 matches Ok(Some(SpecEvent::XmlDecl(_))) ==> !doc.saw_event,
        next_event(src, p, doc).0 matches Ok(Some(_)) ==> next_event(src, p, doc).2.saw_event,
        doc.saw_event ==> next_event(src, p, doc).2.saw_event,
{
    if doc.pending_end is None {
        lemma_next_event_step(src, p, doc);
    }
}

/// The expansion limits touch nothing but entity references: with other
/// limits, any other token gives the same outcome and the same state, the
/// limits apart; and setting the limits a state already has changes
/// nothing, so a parser given the default limits behaves as a new one.
pub proof fn law_limits_only_touch_references(
    doc: DocState,
    limits: ExpansionLimits,
    tok: SpecToken,
    pos: Position,
)
    requires
        !(tok is EntityRef),
    ensures
        handle(DocState { limits, ..doc }, tok, pos).0 == handle(doc, tok, pos).0,
        handle(DocState { limits, ..doc }, tok, pos).1 == (DocState {
            limits,
            ..handle(doc, tok, pos).1
        }),
        limits == doc.limits ==> (DocState { limits, ..doc }) == doc,
{
}

/// The document-wide expansion budget holds: while the running total is
/// within the limit, every event that is emitted leaves it within the
/// limit, and the limits themselves never change.
pub proof fn law_expansion_budget(src: Seq<u8>, p: Position, doc: DocState)
    requires
        doc_inv(doc),
        src.len() <= usize::MAX,
        p.byte_offset <= src.len(),
        doc.expanded_total <= doc.limits.max_expanded_bytes,
    ensures
        next_event(src, p, doc).2.limits == doc.limits,
        next_event(src, p, doc).0 is Ok ==> next_event(src, p, doc).2.expanded_total
            <= doc.limits.max_expanded_bytes,
{
    if doc.pending_end is None {
        lemma_next_event_step(src, p, doc);
    }
}

/// An empty-element tag gives a `StartElement` and, on the next call, the
/// `EndElement` of the same name, whatever the input holds after it.
pub proof fn law_empty_element_closes(src: Seq<u8>, p: Position, doc: DocState)
    requires
        doc_inv(doc),
        src.len() <= usize::MAX,
        p.byte_offset <= src.len(),
    ensures
        ({
            let (r, q, d2) = next_event(src, p, doc);
            d2.pending_end is Some ==> (r matches Ok(Some(SpecEvent::StartElement { name, .. }))
                && next_event(src, q, d2).0 == Ok::<Option<SpecEvent>, crate::error::ErrorKind>(
                Some(SpecEvent::EndElement(name))))
        }),
{
    if doc.pending_end is None {
        lemma_next_event_step(src, p, doc);
    }
}

// ---------------------------------------------------------------------------
// Entity expansion
// ---------------------------------------------------------------------------

/// The bytes of `&name;`.
pub open spec fn reference_bytes(name: Seq<char>) -> Seq<u8> {
    seq![0x26u8] + encode_utf8(name) + seq![0x3Bu8]
}

/// A name that a reference inside a value resolves through the table: its
/// bytes hold no `;`, and it is neither a predefined entity nor a character
/// reference.
pub open spec fn table_reference_name(name: Seq<char>) -> bool {
    &&& forall|i: int| 0 <= i < encode_utf8(name).len() ==> #[trigger] encode_utf8(name)[i] != 0x3Bu8
    &&& builtin_text(encode_utf8(name)) is None
    &&& !(encode_utf8(name).len() > 0 && encode_utf8(name)[0] == 0x23u8)
}

/// A set of declared entities each of whose values begins with a reference
/// to an entity of the set: a reference cycle (such as `a` whose value is
/// `&a;`, or `a` and `b` that refer to each other).
pub open spec fn reference_cycle(m: Map<Seq<char>, Seq<char>>, s: Set<Seq<char>>) -> bool {
    forall|n: Seq<char>|
        #![trigger s.contains(n)]
        s.contains(n) ==> m.contains_key(n) && exists|k: Seq<char>|
            #![trigger s.contains(k), reference_bytes(k)]
            s.contains(k) && table_reference_name(k) && encode_utf8(m[n]).len() >= reference_bytes(
                k,
            ).len() && encode_utf8(m[n]).subrange(0, reference_bytes(k).len() as int)
                == reference_bytes(k)
}

/// A value that begins with a reference to `k` fails to measure when `k`
/// fails to measure one level deeper.
proof fn lemma_leading_reference_fails(
    m: Map<Seq<char>, Seq<char>>,
    name: Seq<char>,
    v: Seq<u8>,
    k: Seq<char>,
    depth: nat,
    budget: nat,
)
    requires
        depth > 0,
        table_reference_name(k),
        v.len() >= reference_bytes(k).len(),
        v.subrange(0, reference_bytes(k).len() as int) == reference_bytes(k),
        expansion_len(m, k, (depth - 1) as nat, budget).0 is Err,
    ensures
        value_expansion_len(m, name, v, 0, depth, budget, 0).0 is Err,
{
    let kb = encode_utf8(k);
    let r = reference_bytes(k);
    let end: int = kb.len() as int + 1;
    assert(r.len() == end + 1);
    assert(v[0] == 0x26u8) by {
        assert(v.subrange(0, r.len() as int)[0] == r[0]);
    }
    assert forall|j: int| 1 <= j < end implies v[j] != 0x3Bu8 by {
        assert(v.subrange(0, r.len() as int)[j] == r[j]);
        assert(r[j] == kb[j - 1]);
    }
    assert(v[end] == 0x3Bu8) by {
        assert(v.subrange(0, r.len() as int)[end] == r[end]);
    }
    lemma_find_byte(v, 1, 0x3Bu8);
    assert(find_byte(v, 1, 0x3Bu8) == Some(end));
    assert(v.subrange(1, end) =~= kb) by {
        assert forall|j: int| 0 <= j < kb.len() implies v.subrange(1, end)[j] == kb[j] by {
            assert(v.subrange(0, r.len() as int)[j + 1] == r[j + 1]);
        }
    }
    encode_utf8_decode_utf8(k);
    assert(reference_len(m, name, kb, depth, budget).0 is Err);
}

/// Reference cycles are always rejected, whatever the depth and budget: the
/// expansion of an entity in a cycle is an error, never a length. (This is
/// what keeps a self-referential entity, or two entities that refer to each
/// other, from recursing without end.)
pub proof fn law_reference_cycle_rejected(
    m: Map<Seq<char>, Seq<char>>,
    s: Set<Seq<char>>,
    name: Seq<char>,
    depth: nat,
    budget: nat,
)
    requires
        reference_cycle(m, s),
        s.contains(name),
    ensures
        expansion_len(m, name, depth, budget).0 is Err,
    decreases depth,
{
    if depth > 0 {
        let k = choose|k: Seq<char>|
            #![trigger s.contains(k), reference_bytes(k)]
            s.contains(k) && table_reference_name(k) && encode_utf8(m[name]).len()
                >= reference_bytes(k).len() && encode_utf8(m[name]).subrange(
                0,
                reference_bytes(k).len() as int,
            ) == reference_bytes(k);
        law_reference_cycle_rejected(m, s, k, (depth - 1) as nat, budget);
        lemma_leading_reference_fails(m, name, encode_utf8(m[name]), k, depth, budget);
    }
}

/// Plain bytes of a value, from `i` on, each cost one byte of budget.
proof fn lemma_plain_value_len(
    m: Map<Seq<char>, Seq<char>>,
    name: Seq<char>,
    v: Seq<u8>,
    i: int,
    depth: nat,
    budget: nat,
    total: nat,
)
    requires
        0 <= i <= v.len(),
        forall|j: int| i <= j < v.len() ==> #[trigger] v[j] != 0x26u8,
    ensures
        v.len() - i <= budget ==> value_expansion_len(m, name, v, i, depth, budget, total).0
            == Ok::<nat, Seq<char>>((total + v.len() - i) as nat),
        v.len() - i > budget ==> value_expansion_len(m, name, v, i, depth, budget, total).0 is Err,
    decreases v.len() - i,
{
    if i < v.len() && budget > 0 {
        lemma_plain_value_len(m, name, v, i + 1, depth, (budget - 1) as nat, total + 1);
    }
}

/// A declared entity whose value holds no reference measures as the length
/// of its value in bytes when that fits the budget, and is refused when it
/// does not (at any depth that lets it be expanded at all).
pub proof fn law_plain_value_length(
    m: Map<Seq<char>, Seq<char>>,
    name: Seq<char>,
    depth: nat,
    budget: nat,
)
    requires
        m.contains_key(name),
        depth > 0,
        forall|j: int| 0 <= j < encode_utf8(m[name]).len() ==> #[trigger] encode_utf8(m[name])[j]
            != 0x26u8,
    ensures
        encode_utf8(m[name]).len() <= budget ==> expansion_len(m, name, depth, budget).0
            == Ok::<nat, Seq<char>>(encode_utf8(m[name]).len()),
        encode_utf8(m[name]).len() > budget ==> expansion_len(m, name, depth, budget).0 is Err,
{
    lemma_plain_value_len(m, name, encode_utf8(m[name]), 0, depth, budget, 0);
}

/// Raising the limits never turns an accepted expansion into an error: with
/// at least the depth and at least the budget, an entity that measured gives
/// the same length, and leaves the extra budget unspent.
pub proof fn law_expansion_monotone(
    m: Map<Seq<char>, Seq<char>>,
    name: Seq<char>,
    d1: nat,
    b1: nat,
    d2: nat,
    b2: nat,
)
    requires
        d1 <= d2,
        b1 <= b2,
        expansion_len(m, name, d1, b1).0 is Ok,
    ensures
        expansion_len(m, name, d2, b2).0 == expansion_len(m, name, d1, b1).0,
        expansion_len(m, name, d2, b2).1 == expansion_len(m, name, d1, b1).1 + (b2 - b1),
    decreases d1, 1int, 0int,
{
    if d1 > 0 && m.contains_key(name) {
        lemma_value_monotone(m, name, encode_utf8(m[name]), 0, d1, b1, d2, b2, 0);
    }
}

proof fn lemma_value_monotone(
    m: Map<Seq<char>, Seq<char>>,
    name: Seq<char>,
    v: Seq<u8>,
    i: int,
    d1: nat,
    b1: nat,
    d2: nat,
    b2: nat,
    total: nat,
)
    requires
        d1 <= d2,
        b1 <= b2,
        value_expansion_len(m, name, v, i, d1, b1, total).0 is Ok,
    ensures
        value_expansion_len(m, name, v, i, d2, b2, total).0 == value_expansion_len(
            m,
            name,
            v,
            i,
            d1,
            b1,
            total,
        ).0,
        value_expansion_len(m, name, v, i, d2, b2, total).1 == value_expansion_len(
            m,
            name,
            v,
            i,
            d1,
            b1,
            total,
        ).1 + (b2 - b1),
    decreases d1, 0int, v.len() - i,
{
    if i < 0 || i >= v.len() {
    } else if v[i] == 0x26u8 {
        if let Some(end) = find_byte(v, i + 1, 0x3Bu8) {
            lemma_find_byte(v, i + 1, 0x3Bu8);
            let inner = v.subrange(i + 1, end);
            if valid_utf8(inner) {
                lemma_reference_monotone(m, name, inner, d1, b1, d2, b2);
                let s1 = reference_len(m, name, inner, d1, b1);
                if let Ok(added) = s1.0 {
                    lemma_value_monotone(m, name, v, end + 1, d1, s1.1, d2, (s1.1 + (b2 - b1)) as nat, total + added);
                }
            }
        }
    } else {
        lemma_value_monotone(m, name, v, i + 1, d1, (b1 - 1) as nat, d2, (b2 - 1) as nat, total + 1);
    }
}

proof fn lemma_reference_monotone(
    m: Map<Seq<char>, Seq<char>>,
    name: Seq<char>,
    inner: Seq<u8>,
    d1: nat,
    b1: nat,
    d2: nat,
    b2: nat,
)
    requires
        d1 <= d2,
        b1 <= b2,
        reference_len(m, name, inner, d1, b1).0 is Ok,
    ensures
        reference_len(m, name, inner, d2, b2).0 == reference_len(m, name, inner, d1, b1).0,
        reference_len(m, name, inner, d2, b2).1 == reference_len(m, name, inner, d1, b1).1 + (b2
            - b1),
    decreases d1, 0int, 0int,
{
    if !(builtin_text(inner) is Some || (inner.len() > 0 && inner[0] == 0x23u8)) && d1 > 0 {
        law_expansion_monotone(m, decode_utf8(inner), (d1 - 1) as nat, b1, (d2 - 1) as nat, b2);
    }
}

/// The encoding of two texts in a row is the two encodings in a row.
proof fn lemma_encode_utf8_add(a: Seq<char>, b: Seq<char>)
    ensures
        encode_utf8(a + b) == encode_utf8(a) + encode_utf8(b),
    decreases a.len(),
{
    if a.len() == 0 {
        assert(a + b =~= b);
        assert(encode_utf8(a) =~= Seq::<u8>::empty());
        assert(encode_utf8(a) + encode_utf8(b) =~= encode_utf8(b));
    } else {
        assert((a + b).drop_first() =~= a.drop_first() + b);
        assert((a + b)[0] == a[0]);
        lemma_encode_utf8_add(a.drop_first(), b);
        assert(encode_utf8(a + b) =~= encode_utf8(a) + encode_utf8(b));
    }
}

/// A run of plain bytes costs one byte of budget each, and is measured as
/// its length.
proof fn lemma_plain_run_len(
    m: Map<Seq<char>, Seq<char>>,
    name: Seq<char>,
    v: Seq<u8>,
    i: int,
    e: int,
    depth: nat,
    budget: nat,
    total: nat,
)
    requires
        0 <= i <= e <= v.len(),
        forall|j: int| i <= j < e ==> #[trigger] v[j] != 0x26u8,
        value_expansion_len(m, name, v, i, depth, budget, total).0 is Ok,
    ensures
        e - i <= budget,
        value_expansion_len(m, name, v, i, depth, budget, total) == value_expansion_len(
            m,
            name,
            v,
            e,
            depth,
            (budget - (e - i)) as nat,
            (total + (e - i)) as nat,
        ),
    decreases e - i,
{
    if i < e {
        lemma_plain_run_len(m, name, v, i + 1, e, depth, (budget - 1) as nat, total + 1);
    }
}

/// The text built of a value is no longer than its measure counts.
proof fn lemma_value_text_within_measure(
    m: Map<Seq<char>, Seq<char>>,
    name: Seq<char>,
    v: Seq<u8>,
    i: int,
    depth: nat,
    budget: nat,
    total: nat,
)
    requires
        0 <= i <= v.len(),
        crate::boundary::utf8_from(v, i),
        value_expansion_len(m, name, v, i, depth, budget, total).0 is Ok,
        value_text(m, name, v, i, depth) is Ok,
    ensures
        total + encode_utf8(value_text(m, name, v, i, depth)->Ok_0).len()
            <= value_expansion_len(m, name, v, i, depth, budget, total).0->Ok_0,
    decreases depth, 0int, v.len() - i,
{
    if i >= v.len() {
        assert(encode_utf8(Seq::<char>::empty()) =~= Seq::<u8>::empty());
    } else if v[i] == 0x26u8 {
        lemma_find_byte(v, i + 1, 0x3Bu8);
        let end = find_byte(v, i + 1, 0x3Bu8)->Some_0;
        let inner = v.subrange(i + 1, end);
        let piece = reference_text(m, name, inner, depth)->Ok_0;
        let step = reference_len(m, name, inner, depth, budget);
        lemma_reference_text_within_measure(m, name, inner, depth, budget);
        crate::boundary::lemma_utf8_from_lead(v, i, end);
        crate::boundary::lemma_utf8_from_ascii_step(v, end);
        lemma_value_text_within_measure(m, name, v, end + 1, depth, step.1, total + step.0->Ok_0);
        lemma_encode_utf8_add(piece, value_text(m, name, v, end + 1, depth)->Ok_0);
    } else {
        lemma_find_byte(v, i, 0x26u8);
        let e = run_end(v, i);
        let run = v.subrange(i, e);
        if e < v.len() {
            crate::boundary::lemma_utf8_from_lead(v, i, e);
        } else {
            crate::boundary::lemma_utf8_from_end(v);
        }
        crate::boundary::lemma_utf8_slice(v, i, e);
        decode_utf8_encode_utf8(run);
        lemma_plain_run_len(m, name, v, i, e, depth, budget, total);
        lemma_value_text_within_measure(
            m,
            name,
            v,
            e,
            depth,
            (budget - (e - i)) as nat,
            (total + (e - i)) as nat,
        );
        lemma_encode_utf8_add(decode_utf8(run), value_text(m, name, v, e, depth)->Ok_0);
    }
}

/// The text of a reference is no longer than its measure counts.
proof fn lemma_reference_text_within_measure(
    m: Map<Seq<char>, Seq<char>>,
    name: Seq<char>,
    inner: Seq<u8>,
    depth: nat,
    budget: nat,
)
    requires
        reference_len(m, name, inner, depth, budget).0 is Ok,
        reference_text(m, name, inner, depth) is Ok,
    ensures
        encode_utf8(reference_text(m, name, inner, depth)->Ok_0).len() <= reference_len(
            m,
            name,
            inner,
            depth,
            budget,
        ).0->Ok_0,
    decreases depth, 0int, 0int,
{
    if builtin_text(inner) is Some {
        let t = builtin_text(inner)->Some_0;
        crate::boundary::lemma_ascii_valid(t);
        decode_utf8_encode_utf8(t);
    } else if inner.len() > 0 && inner[0] == 0x23u8 {
        let c = reference_text(m, name, inner, depth)->Ok_0[0];
        assert(reference_text(m, name, inner, depth)->Ok_0 =~= seq![c]);
        assert(seq![c].drop_first() =~= Seq::<char>::empty());
        assert(encode_utf8(Seq::<char>::empty()) =~= Seq::<u8>::empty());
        assert(encode_utf8(seq![c]) =~= encode_scalar(c as u32));
    } else {
        law_text_within_measure(m, decode_utf8(inner), (depth - 1) as nat, budget);
    }
}

/// The replacement text of an entity is no longer, in bytes, than the
/// length its measure reports: what `validate_expansion` allows within the
/// limits, `expand` builds within them too.
pub proof fn law_text_within_measure(
    m: Map<Seq<char>, Seq<char>>,
    name: Seq<char>,
    depth: nat,
    budget: nat,
)
    requires
        expansion_len(m, name, depth, budget).0 is Ok,
        entity_text(m, name, depth) is Ok,
    ensures
        encode_utf8(entity_text(m, name, depth)->Ok_0).len() <= expansion_len(
            m,
            name,
            depth,
            budget,
        ).0->Ok_0,
    decreases depth, 1int, 0int,
{
    if depth > 0 && m.contains_key(name) {
        encode_utf8_valid_utf8(m[name]);
        crate::boundary::lemma_utf8_from_start(encode_utf8(m[name]));
        lemma_value_text_within_measure(m, name, encode_utf8(m[name]), 0, depth, budget, 0);
    }
}

// ---------------------------------------------------------------------------
// Tokens
// ---------------------------------------------------------------------------

/// No `--` pair in the bytes.
pub open spec fn no_double_dash(b: Seq<u8>) -> bool {
    forall|i: int| 0 <= i && i + 1 < b.len() ==> !(b[i] == 0x2Du8 && #[trigger] b[i + 1] == 0x2Du8)
}

/// No `<` and no `&` in the bytes.
pub open spec fn no_markup(b: Seq<u8>) -> bool {
    forall|i: int| 0 <= i < b.len() ==> #[trigger] b[i] != 0x3Cu8 && b[i] != 0x26u8
}

proof fn lemma_comment_body(src: Seq<u8>, start: int, p: Position)
    requires
        src.len() <= usize::MAX,
        0 <= start <= p.byte_offset <= src.len(),
        forall|i: int|
            start <= i < p.byte_offset ==> !(src[i] == 0x2Du8 && i + 1 < src.len() && #[trigger] src[i
                + 1] == 0x2Du8),
    ensures
        comment_rest(src, start, p).0 matches Ok(b) ==> no_double_dash(b),
    decreases src.len() - p.byte_offset,
{
    if p.byte_offset < src.len() {
        if cur(src, p) == Some(0x2Du8) && peek(src, p, 1) == Some(0x2Du8) {
            let b = src.subrange(start, p.byte_offset as int);
            assert forall|i: int| 0 <= i && i + 1 < b.len() implies !(b[i] == 0x2Du8 && #[trigger] b[i
                + 1] == 0x2Du8) by {
                assert(b[i] == src[start + i]);
                assert(b[i + 1] == src[start + i + 1]);
            }
        } else {
            let q = bumped(src, p);
            assert forall|i: int|
                start <= i < q.byte_offset implies !(src[i] == 0x2Du8 && i + 1 < src.len()
                && #[trigger] src[i + 1] == 0x2Du8) by {
                if i == p.byte_offset {
                }
            }
            lemma_comment_body(src, start, q);
        }
    }
}

proof fn lemma_text_body(src: Seq<u8>, start: int, p: Position)
    requires
        src.len() <= usize::MAX,
        0 <= start <= p.byte_offset <= src.len(),
        forall|i: int| start <= i < p.byte_offset ==> #[trigger] src[i] != 0x3Cu8 && src[i] != 0x26u8,
    ensures
        text_rest(src, start, p).0 matches Ok(SpecToken::Text(b)) ==> no_markup(b),
        text_rest(src, start, p).0 matches Ok(t) ==> t is Text,
    decreases src.len() - p.byte_offset,
{
    match cur(src, p) {
        None => {
            let b = src.subrange(start, p.byte_offset as int);
            assert forall|i: int| 0 <= i < b.len() implies #[trigger] b[i] != 0x3Cu8 && b[i] != 0x26u8 by {
                assert(b[i] == src[start + i]);
            }
        },
        Some(c) => {
            if c == 0x3Cu8 || c == 0x26u8 {
                let b = src.subrange(start, p.byte_offset as int);
                assert forall|i: int| 0 <= i < b.len() implies #[trigger] b[i] != 0x3Cu8 && b[i]
                    != 0x26u8 by {
                    assert(b[i] == src[start + i]);
                }
            } else if !(c == 0x5Du8 && peek(src, p, 1) == Some(0x5Du8) && peek(src, p, 2) == Some(
                0x3Eu8,
            )) {
                lemma_text_body(src, start, bumped(src, p));
            }
        },
    }
}

proof fn lemma_tag_rest_kind(src: Seq<u8>, name: Seq<u8>, attrs: Seq<crate::token::SpecAttr>, p: Position)
    requires
        src.len() <= usize::MAX,
        p.byte_offset <= src.len(),
    ensures
        tag_rest(src, name, attrs, p).0 matches Ok(t) ==> (t is StartTag || t is EmptyTag),
    decreases src.len() - p.byte_offset,
{
    crate::grammar::lemma_ws_skip(src, p);
    let p1 = crate::grammar::ws_skip(src, p);
    if let Some(c) = cur(src, p1) {
        if c != 0x3Eu8 && c != 0x2Fu8 && crate::grammar::starts_name(src, p1.byte_offset as int) {
            crate::grammar::lemma_scan_attribute(src, p1);
            let (ra, p5) = crate::grammar::scan_attribute(src, p1);
            if let Ok(a) = ra {
                lemma_tag_rest_kind(src, name, attrs.push(a), p5);
            }
        }
    }
}

proof fn lemma_xmldecl_rest_kind(
    src: Seq<u8>,
    version: Seq<u8>,
    encoding: Option<Seq<u8>>,
    standalone: Option<bool>,
    p: Position,
)
    requires
        src.len() <= usize::MAX,
        p.byte_offset <= src.len(),
    ensures
        xmldecl_rest(src, version, encoding, standalone, p).0 matches Ok(t) ==> t is XmlDecl,
    decreases src.len() - p.byte_offset,
{
    crate::grammar::lemma_ws_skip(src, p);
    let p1 = crate::grammar::ws_skip(src, p);
    if cur(src, p1) == Some(0x3Fu8) && peek(src, p1, 1) == Some(0x3Eu8) {
    } else if crate::grammar::keyword_at(src, p1.byte_offset as int, crate::grammar::kw_encoding()) {
        crate::grammar::lemma_scan_assignment(src, crate::grammar::skipped(p1, 8), "encoding"@);
        let (r, p5) = crate::grammar::scan_assignment(src, crate::grammar::skipped(p1, 8), "encoding"@);
        if let Ok(v) = r {
            lemma_xmldecl_rest_kind(src, version, Some(v), standalone, p5);
        }
    } else if crate::grammar::keyword_at(src, p1.byte_offset as int, crate::grammar::kw_standalone()) {
        crate::grammar::lemma_scan_assignment(src, crate::grammar::skipped(p1, 10), "standalone"@);
        let (r, p5) = crate::grammar::scan_assignment(src, crate::grammar::skipped(p1, 10), "standalone"@);
        if let Ok(v) = r {
            lemma_xmldecl_rest_kind(src, version, encoding, Some(true), p5);
            lemma_xmldecl_rest_kind(src, version, encoding, Some(false), p5);
        }
    }
}

proof fn lemma_doctype_rest_kind(src: Seq<u8>, name: Seq<u8>, body_start: int, depth: int, p: Position)
    requires
        src.len() <= usize::MAX,
        p.byte_offset <= src.len(),
    ensures
        doctype_rest(src, name, body_start, depth, p).0 matches Ok(t) ==> t is Doctype,
    decreases src.len() - p.byte_offset,
{
    if let Some(c) = cur(src, p) {
        if c == 0x5Bu8 {
            lemma_doctype_rest_kind(src, name, body_start, depth + 1, bumped(src, p));
        } else if c == 0x5Du8 {
            lemma_doctype_rest_kind(src, name, body_start, depth - 1, bumped(src, p));
        } else if !(c == 0x3Eu8 && depth == 0) {
            lemma_doctype_rest_kind(src, name, body_start, depth, bumped(src, p));
        }
    }
}

/// A comment that markup at `<` gives holds no `--`, and such markup never
/// gives character data.
proof fn lemma_open_construct_contents(src: Seq<u8>, p: Position)
    requires
        src.len() <= usize::MAX,
        p.byte_offset < src.len(),
    ensures
        scan_open_construct(src, p).0 matches Ok(SpecToken::Comment(b)) ==> no_double_dash(b),
        !(scan_open_construct(src, p).0 matches Ok(SpecToken::Text(_))),
        !(scan_open_construct(src, p).0 matches Ok(SpecToken::EntityRef(_))),
{
    let off = p.byte_offset as int;
    match peek(src, p, 1) {
        None => {},
        Some(b) => {
            if b == 0x2Fu8 {
            } else if b == 0x21u8 {
                if crate::grammar::starts_at(src, off, crate::grammar::kw_comment_open()) {
                    let p1 = crate::grammar::skipped(p, 4);
                    lemma_comment_body(src, p1.byte_offset as int, p1);
                } else if crate::grammar::starts_at(src, off, crate::grammar::kw_cdata_open()) {
                } else if crate::grammar::starts_at(src, off, crate::grammar::kw_doctype_open()) {
                    let p2 = crate::grammar::ws_skip(src, crate::grammar::skipped(p, 9));
                    crate::grammar::lemma_ws_skip(src, crate::grammar::skipped(p, 9));
                    crate::grammar::lemma_scan_name(src, p2);
                    let (r, p3) = crate::grammar::scan_name(src, p2);
                    if let Ok(name) = r {
                        lemma_doctype_rest_kind(src, name, p3.byte_offset as int, 0, p3);
                    }
                }
            } else if b == 0x3Fu8 {
                let p2 = bumped(src, bumped(src, p));
                crate::grammar::lemma_scan_name(src, p2);
                let (r, p3) = crate::grammar::scan_name(src, p2);
                if let Ok(target) = r {
                    if crate::grammar::is_xml_target(target) {
                        crate::grammar::lemma_ws_skip(src, p3);
                        let p1 = crate::grammar::ws_skip(src, p3);
                        if crate::grammar::keyword_at(src, p1.byte_offset as int, crate::grammar::kw_version()) {
                            crate::grammar::lemma_scan_assignment(src, crate::grammar::skipped(p1, 7), "version"@);
                            let (rv, p5) = crate::grammar::scan_assignment(src, crate::grammar::skipped(p1, 7), "version"@);
                            if let Ok(version) = rv {
                                lemma_xmldecl_rest_kind(src, version, None, None, p5);
                            }
                        }
                    }
                }
            } else {
                let p1 = bumped(src, p);
                crate::grammar::lemma_scan_name(src, p1);
                let (r, p2) = crate::grammar::scan_name(src, p1);
                if let Ok(name) = r {
                    lemma_tag_rest_kind(src, name, Seq::empty(), p2);
                }
            }
        },
    }
}

/// What the lexer hands out keeps to the grammar's rules for its contents:
/// a comment holds no `--` (section 2.5), and character data holds no `<`
/// and no `&` (section 2.4).
pub proof fn law_token_contents(src: Seq<u8>, p: Position)
    requires
        src.len() <= usize::MAX,
        p.byte_offset <= src.len(),
    ensures
        next_token(src, p).0 matches Ok(Some(SpecToken::Comment(b))) ==> no_double_dash(b),
        next_token(src, p).0 matches Ok(Some(SpecToken::Text(b))) ==> no_markup(b),
{
    if p.byte_offset < src.len() {
        let off = p.byte_offset as int;
        if src[off] == 0x3Cu8 {
            lemma_open_construct_contents(src, p);
        } else if src[off] == 0x26u8 {
            assert(!(scan_reference(src, p).0 matches Ok(SpecToken::Text(_))));
            assert(!(scan_reference(src, p).0 matches Ok(SpecToken::Comment(_))));
        } else {
            lemma_text_body(src, off, p);
        }
    }
}

/// An entity reference is a token only where the input holds `&`.
pub proof fn lemma_entity_ref_at_ampersand(src: Seq<u8>, p: Position)
    requires
        src.len() <= usize::MAX,
        p.byte_offset <= src.len(),
    ensures
        next_token(src, p).0 matches Ok(Some(SpecToken::EntityRef(_))) ==> p.byte_offset < src.len()
            && src[p.byte_offset as int] == 0x26u8,
{
    if p.byte_offset < src.len() {
        let off = p.byte_offset as int;
        if src[off] == 0x3Cu8 {
            lemma_open_construct_contents(src, p);
        } else if src[off] != 0x26u8 {
            lemma_text_body(src, off, p);
        }
    }
}

} // verus!
