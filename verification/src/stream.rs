//! The whole event stream. `drain` is what a caller gets by asking for
//! events until the end or the first error; the laws here speak of that
//! whole sequence: elements nest and form exactly one root, the XML
//! declaration can only be the first event, a DOCTYPE comes at most once and
//! before the root, and character data stands inside the root.
use vstd::prelude::*;
use crate::entities::ExpansionLimits;
use crate::error::{start_position, ErrorKind, Position};
use crate::event::SpecEvent;
use crate::grammar::{lemma_next_token_progress, next_token};
use crate::laws::{
    law_limits_only_touch_references, lemma_entity_ref_at_ampersand, lemma_next_event_step,
};
use crate::parser::{
    doc_inv, event_loop, initial_doc, lemma_next_event_keeps_inv, next_event, step, DocState, Phase,
};

verus! {

/// The events from position `p` and state `doc` on, in order, and how the
/// stream ends: `Ok` at the end of the document, or the first error.
pub open spec fn drain(src: Seq<u8>, p: Position, doc: DocState) -> (
    Seq<SpecEvent>,
    Result<(), ErrorKind>,
)
    decreases src.len() - p.byte_offset, if doc.pending_end is Some {
        1int
    } else {
        0int
    },
    when src.len() <= usize::MAX && p.byte_offset <= src.len()
{
    let (r, q, d2) = next_event(src, p, doc);
    match r {
        Err(e) => (Seq::empty(), Err(e)),
        Ok(None) => (Seq::empty(), Ok(())),
        Ok(Some(ev)) => {
            proof {
                lemma_next_event_progress(src, p, doc);
            }
            let (rest, end) = drain(src, q, d2);
            (seq![ev] + rest, end)
        },
    }
}

/// Taking tokens until one gives an event moves forward, and an event
/// consumes at least one byte.
pub proof fn lemma_event_loop_progress(src: Seq<u8>, p: Position, doc: DocState)
    requires
        src.len() <= usize::MAX,
        p.byte_offset <= src.len(),
    ensures
        p.byte_offset <= event_loop(src, p, doc).1.byte_offset <= src.len(),
        event_loop(src, p, doc).0 matches Ok(Some(_)) ==> p.byte_offset < event_loop(
            src,
            p,
            doc,
        ).1.byte_offset,
    decreases src.len() - p.byte_offset,
{
    lemma_next_token_progress(src, p);
    let (r, q) = next_token(src, p);
    if let Ok(Some(tok)) = r {
        let (hr, doc2) = step(doc, tok, p);
        if hr matches Ok(None) {
            lemma_event_loop_progress(src, q, doc2);
        }
    }
}

/// An event either consumes input or reports a pending end, which then is
/// no longer pending.
pub proof fn lemma_next_event_progress(src: Seq<u8>, p: Position, doc: DocState)
    requires
        src.len() <= usize::MAX,
        p.byte_offset <= src.len(),
    ensures
        p.byte_offset <= next_event(src, p, doc).1.byte_offset <= src.len(),
        next_event(src, p, doc).0 matches Ok(Some(_)) ==> {
            ||| p.byte_offset < next_event(src, p, doc).1.byte_offset
            ||| doc.pending_end is Some && next_event(src, p, doc).1 == p && next_event(
                src,
                p,
                doc,
            ).2.pending_end is None
        },
{
    if doc.pending_end is None {
        lemma_event_loop_progress(src, p, doc);
    }
}

/// What the well-formedness rules follow of the events seen so far: the
/// names of the open elements, whether the root has started, whether any
/// event and whether a DOCTYPE has been seen.
pub struct StreamState {
    pub open: Seq<Seq<u8>>,
    pub rooted: bool,
    pub any: bool,
    pub doctype: bool,
}

/// Before the first event.
pub open spec fn stream_start() -> StreamState {
    StreamState { open: Seq::empty(), rooted: false, any: false, doctype: false }
}

/// An event may come next: the XML declaration only first; a DOCTYPE only
/// once and before the root; an element only inside the root or as the root
/// itself; an end only of the innermost open element; character data only
/// inside the root.
pub open spec fn event_allowed(st: StreamState, ev: SpecEvent) -> bool {
    match ev {
        SpecEvent::XmlDecl(_) => !st.any,
        SpecEvent::Doctype { .. } => !st.rooted && !st.doctype,
        SpecEvent::StartElement { .. } => st.open.len() > 0 || !st.rooted,
        SpecEvent::EndElement(n) => st.open.len() > 0 && st.open.last() == n,
        SpecEvent::Text(_) => st.open.len() > 0,
        SpecEvent::CData(_) => st.open.len() > 0,
        _ => true,
    }
}

/// What an event does to what has been seen.
pub open spec fn after_event(st: StreamState, ev: SpecEvent) -> StreamState {
    match ev {
        SpecEvent::StartElement { name, .. } => StreamState {
            open: st.open.push(name),
            rooted: true,
            any: true,
            ..st
        },
        SpecEvent::EndElement(_) => StreamState { open: st.open.drop_last(), any: true, ..st },
        SpecEvent::Doctype { .. } => StreamState { doctype: true, any: true, ..st },
        _ => StreamState { any: true, ..st },
    }
}

/// Every event of `evs`, in turn, may come where it comes.
pub open spec fn stream_allowed(st: StreamState, evs: Seq<SpecEvent>) -> bool
    decreases evs.len(),
{
    evs.len() == 0 || (event_allowed(st, evs[0]) && stream_allowed(
        after_event(st, evs[0]),
        evs.drop_first(),
    ))
}

/// What has been seen after all of `evs`.
pub open spec fn stream_after(st: StreamState, evs: Seq<SpecEvent>) -> StreamState
    decreases evs.len(),
{
    if evs.len() == 0 {
        st
    } else {
        stream_after(after_event(st, evs[0]), evs.drop_first())
    }
}

/// What the document state says of the events seen so far.
pub open spec fn seen(doc: DocState) -> StreamState {
    StreamState {
        open: doc.stack,
        rooted: doc.phase != Phase::Prolog,
        any: doc.saw_event,
        doctype: doc.saw_doctype,
    }
}

/// The state the stream laws need: the parser's own consistency, and inside
/// the root some element is open.
pub open spec fn stream_inv(doc: DocState) -> bool {
    &&& doc_inv(doc)
    &&& (doc.phase == Phase::Body ==> doc.stack.len() > 0)
}

/// One event at a time: an event the parser reports may come where it
/// comes, and the state afterwards says what has been seen; the end comes
/// only with every element closed and the root seen.
proof fn lemma_event_allowed(src: Seq<u8>, p: Position, doc: DocState)
    requires
        stream_inv(doc),
        src.len() <= usize::MAX,
        p.byte_offset <= src.len(),
    ensures
        ({
            let (r, q, d2) = next_event(src, p, doc);
            &&& r matches Ok(Some(ev)) ==> event_allowed(seen(doc), ev) && seen(d2) == after_event(
                seen(doc),
                ev,
            ) && stream_inv(d2)
            &&& r matches Ok(None) ==> doc.stack.len() == 0 && doc.phase != Phase::Prolog
        }),
{
    lemma_next_event_keeps_inv(src, p, doc);
    if doc.pending_end is None {
        lemma_next_event_step(src, p, doc);
    }
}

/// The events from any consistent state on may each come where they come,
/// and a stream that ends well ends with every element closed and the root
/// seen.
pub proof fn lemma_drain_allowed(src: Seq<u8>, p: Position, doc: DocState)
    requires
        stream_inv(doc),
        src.len() <= usize::MAX,
        p.byte_offset <= src.len(),
    ensures
        stream_allowed(seen(doc), drain(src, p, doc).0),
        drain(src, p, doc).1 is Ok ==> stream_after(seen(doc), drain(src, p, doc).0).open.len()
            == 0 && stream_after(seen(doc), drain(src, p, doc).0).rooted,
    decreases src.len() - p.byte_offset, if doc.pending_end is Some {
        1int
    } else {
        0int
    },
{
    lemma_event_allowed(src, p, doc);
    lemma_next_event_progress(src, p, doc);
    let (r, q, d2) = next_event(src, p, doc);
    if let Ok(Some(ev)) = r {
        lemma_drain_allowed(src, q, d2);
        let evs = drain(src, p, doc).0;
        let rest = drain(src, q, d2).0;
        assert(evs =~= seq![ev] + rest);
        assert(evs[0] == ev);
        assert(evs.drop_first() =~= rest);
    }
}

/// The whole event stream of a document is well formed: read from the start
/// with any limits, every event may come where it comes (elements nest, an
/// element starts only inside the root or as the root, the XML declaration
/// only first, a DOCTYPE at most once and before the root, character data
/// and CDATA only inside the root); and when the stream ends without an
/// error, every element is closed and there was a root, so the elements
/// form exactly one root element.
pub proof fn law_stream_well_formed(src: Seq<u8>, limits: ExpansionLimits)
    requires
        src.len() <= usize::MAX,
    ensures
        stream_allowed(stream_start(), drain(src, start_position(), initial_doc(limits)).0),
        drain(src, start_position(), initial_doc(limits)).1 is Ok ==> stream_after(
            stream_start(),
            drain(src, start_position(), initial_doc(limits)).0,
        ).open.len() == 0 && stream_after(
            stream_start(),
            drain(src, start_position(), initial_doc(limits)).0,
        ).rooted,
{
    assert(seen(initial_doc(limits)) == stream_start());
    lemma_drain_allowed(src, start_position(), initial_doc(limits));
}

/// No `&` from `p` on: the input holds no reference there.
pub open spec fn no_references(src: Seq<u8>, p: Position) -> bool {
    forall|i: int| p.byte_offset <= i < src.len() ==> src[i] != 0x26u8
}

proof fn lemma_event_loop_limits(src: Seq<u8>, p: Position, doc: DocState, limits: ExpansionLimits)
    requires
        src.len() <= usize::MAX,
        p.byte_offset <= src.len(),
        no_references(src, p),
    ensures
        ({
            let (r, q, d2) = event_loop(src, p, doc);
            event_loop(src, p, DocState { limits, ..doc }) == (r, q, DocState { limits, ..d2 })
        }),
    decreases src.len() - p.byte_offset,
{
    lemma_next_token_progress(src, p);
    lemma_entity_ref_at_ampersand(src, p);
    let (r, q) = next_token(src, p);
    if let Ok(Some(tok)) = r {
        law_limits_only_touch_references(doc, limits, tok, p);
        let (hr, d2) = step(doc, tok, p);
        if hr matches Ok(None) {
            lemma_event_loop_limits(src, q, d2, limits);
        }
    }
}

proof fn lemma_drain_limits(src: Seq<u8>, p: Position, doc: DocState, limits: ExpansionLimits)
    requires
        src.len() <= usize::MAX,
        p.byte_offset <= src.len(),
        no_references(src, p),
    ensures
        drain(src, p, DocState { limits, ..doc }) == drain(src, p, doc),
    decreases src.len() - p.byte_offset, if doc.pending_end is Some {
        1int
    } else {
        0int
    },
{
    lemma_next_event_progress(src, p, doc);
    if doc.pending_end is None {
        lemma_event_loop_limits(src, p, doc, limits);
    }
    let (r, q, d2) = next_event(src, p, doc);
    assert(next_event(src, p, DocState { limits, ..doc }) == (r, q, DocState { limits, ..d2 }));
    if let Ok(Some(ev)) = r {
        lemma_drain_limits(src, q, d2, limits);
    }
}

/// The expansion limits only matter where an entity is referenced: a
/// document that holds no `&` gives the same events and the same end under
/// any two limits. And setting the limits a parser already has changes
/// nothing: a new parser given the default limits drains exactly as a new
/// parser does.
pub proof fn law_limits_only_touch_references_in_drain(
    src: Seq<u8>,
    limits: ExpansionLimits,
    other: ExpansionLimits,
)
    requires
        src.len() <= usize::MAX,
    ensures
        no_references(src, start_position()) ==> drain(src, start_position(), initial_doc(other))
            == drain(src, start_position(), initial_doc(limits)),
        drain(src, start_position(), DocState { limits, ..initial_doc(limits) }) == drain(
            src,
            start_position(),
            initial_doc(limits),
        ),
{
    assert(initial_doc(other) == DocState { limits: other, ..initial_doc(limits) });
    assert(DocState { limits, ..initial_doc(limits) } == initial_doc(limits));
    if no_references(src, start_position()) {
        lemma_drain_limits(src, start_position(), initial_doc(limits), other);
    }
}

} // verus!
