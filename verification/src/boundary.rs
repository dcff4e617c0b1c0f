//! Character boundaries. The input is a `&str`, so it is valid UTF-8; a
//! scanner that starts at a character boundary only ever stops at one: it
//! moves over ASCII markup byte by byte, over a Name character by character,
//! and over other text only up to an ASCII delimiter or the end. So every
//! slice that a token takes of the input is itself valid UTF-8.
use vstd::prelude::*;
use vstd::utf8::*;
use crate::entities::is_xml_ws;
use crate::error::Position;
use crate::grammar::{
    attr_value_rest, bumped, cdata_rest, comment_rest, cur, current_char, digits_rest,
    doctype_rest, is_xml_target, keyword_at, kw_cdata_open, kw_comment_open, kw_doctype_open,
    kw_encoding, kw_standalone, kw_version, lemma_current_char, lemma_scan_name,
    lemma_ws_skip, name_rest, name_start_code, next_token, peek, pi_rest, scan_assignment,
    scan_attr_value, scan_attribute, scan_bang, scan_char_ref, scan_doctype, scan_end_tag,
    scan_name, scan_open_construct, scan_pi_body, scan_pi_or_decl, scan_reference,
    scan_start_or_empty, scan_xmldecl, skipped, starts_at, tag_rest, text_rest, ws_skip,
    xmldecl_rest,
};
use crate::token::SpecAttr;

verus! {

/// The input from offset `i` on is valid UTF-8: in a valid input, `i` is a
/// character boundary.
pub open spec fn utf8_from(src: Seq<u8>, i: int) -> bool {
    0 <= i <= src.len() && valid_utf8(src.subrange(i, src.len() as int))
}

/// The end of the input is a boundary.
pub proof fn lemma_utf8_from_end(src: Seq<u8>)
    ensures
        utf8_from(src, src.len() as int),
{
    assert(src.subrange(src.len() as int, src.len() as int) =~= Seq::<u8>::empty());
}

/// Bytes that are all ASCII are valid UTF-8.
pub proof fn lemma_ascii_valid(s: Seq<u8>)
    requires
        forall|j: int| 0 <= j < s.len() ==> #[trigger] s[j] < 0x80,
    ensures
        valid_utf8(s),
    decreases s.len(),
{
    if s.len() > 0 {
        let t = s.subrange(1, s.len() as int);
        assert forall|j: int| 0 <= j < t.len() implies #[trigger] t[j] < 0x80 by {
            assert(t[j] == s[j + 1]);
        }
        lemma_ascii_valid(t);
        assert(length_of_first_scalar(s) == 1);
        assert(pop_first_scalar(s) =~= t);
    }
}

/// A valid input starts at a boundary.
pub proof fn lemma_utf8_from_start(src: Seq<u8>)
    requires
        valid_utf8(src),
    ensures
        utf8_from(src, 0),
{
    assert(src.subrange(0, src.len() as int) =~= src);
}

/// Past an ASCII byte that stands at a boundary is a boundary.
pub proof fn lemma_utf8_from_ascii_step(src: Seq<u8>, i: int)
    requires
        utf8_from(src, i),
        i < src.len(),
        src[i] < 0x80,
    ensures
        utf8_from(src, i + 1),
{
    let t = src.subrange(i, src.len() as int);
    assert(t[0] == src[i]);
    assert(length_of_first_scalar(t) == 1);
    assert(pop_first_scalar(t) =~= src.subrange(i + 1, src.len() as int));
}

/// Past `k` ASCII bytes from a boundary is a boundary.
pub proof fn lemma_utf8_from_ascii_run(src: Seq<u8>, i: int, k: nat)
    requires
        utf8_from(src, i),
        i + k <= src.len(),
        forall|j: int| i <= j < i + k ==> #[trigger] src[j] < 0x80,
    ensures
        utf8_from(src, i + k),
    decreases k,
{
    if k > 0 {
        lemma_utf8_from_ascii_step(src, i);
        lemma_utf8_from_ascii_run(src, i + 1, (k - 1) as nat);
    }
}

/// A byte that is no continuation byte, after a boundary, stands at a
/// boundary.
pub proof fn lemma_utf8_from_lead(src: Seq<u8>, start: int, i: int)
    requires
        utf8_from(src, start),
        start <= i < src.len(),
        !is_continuation_byte(src[i]),
    ensures
        utf8_from(src, i),
{
    let t = src.subrange(start, src.len() as int);
    let j = i - start;
    assert(t[j] == src[i]);
    is_char_boundary_iff_not_is_continuation_byte(t, j);
    valid_utf8_split(t, j);
    assert(t.subrange(j, t.len() as int) =~= src.subrange(i, src.len() as int));
}

/// The bytes between two boundaries are valid UTF-8.
pub proof fn lemma_utf8_slice(src: Seq<u8>, s: int, e: int)
    requires
        utf8_from(src, s),
        utf8_from(src, e),
        s <= e,
    ensures
        valid_utf8(src.subrange(s, e)),
{
    let t = src.subrange(s, src.len() as int);
    let j = e - s;
    if e == src.len() {
        assert(src.subrange(s, e) =~= t);
    } else {
        let u = src.subrange(e, src.len() as int);
        assert(u[0] == src[e]);
        assert(t[j] == src[e]);
        is_char_boundary_iff_not_is_continuation_byte(t, j);
        valid_utf8_split(t, j);
        assert(t.subrange(0, j) =~= src.subrange(s, e));
    }
}

/// Past a character that the lexer decodes at a boundary is a boundary.
pub proof fn lemma_utf8_from_char(src: Seq<u8>, off: int)
    requires
        utf8_from(src, off),
    ensures
        current_char(src, off) matches Some((c, l)) ==> utf8_from(src, off + l),
{
    if let Some((c, l)) = current_char(src, off) {
        let t = src.subrange(off, src.len() as int);
        assert(t[0] == src[off]);
        assert(length_of_first_scalar(t) == l);
        assert(pop_first_scalar(t) =~= src.subrange(off + l, src.len() as int));
    }
}

/// Where fixed ASCII markup `kw` stands at `off`, the bytes it covers are
/// ASCII.
pub proof fn lemma_starts_at_ascii(src: Seq<u8>, off: int, kw: Seq<u8>)
    requires
        starts_at(src, off, kw),
        forall|j: int| 0 <= j < kw.len() ==> #[trigger] kw[j] < 0x80,
    ensures
        off + kw.len() <= src.len(),
        forall|j: int| off <= j < off + kw.len() ==> #[trigger] src[j] < 0x80,
{
    let t = src.subrange(off, src.len() as int);
    assert forall|j: int| off <= j < off + kw.len() implies #[trigger] src[j] < 0x80 by {
        assert(t.subrange(0, kw.len() as int)[j - off] == kw[j - off]);
    }
}

/// Past fixed ASCII markup `kw` at a boundary is a boundary.
pub proof fn lemma_utf8_from_skip(src: Seq<u8>, p: Position, kw: Seq<u8>)
    requires
        utf8_from(src, p.byte_offset as int),
        starts_at(src, p.byte_offset as int, kw),
        forall|j: int| 0 <= j < kw.len() ==> #[trigger] kw[j] < 0x80,
        p.byte_offset + kw.len() <= usize::MAX,
    ensures
        utf8_from(src, skipped(p, kw.len()).byte_offset as int),
{
    lemma_starts_at_ascii(src, p.byte_offset as int, kw);
    lemma_utf8_from_ascii_run(src, p.byte_offset as int, kw.len());
}

// ---------------------------------------------------------------------------
// Every scanner that starts at a boundary stops at one
// ---------------------------------------------------------------------------

pub proof fn lemma_ws_skip_utf8(src: Seq<u8>, p: Position)
    requires
        src.len() <= usize::MAX,
        utf8_from(src, p.byte_offset as int),
    ensures
        utf8_from(src, ws_skip(src, p).byte_offset as int),
    decreases src.len() - p.byte_offset,
{
    if p.byte_offset < src.len() && is_xml_ws(src[p.byte_offset as int]) {
        lemma_utf8_from_ascii_step(src, p.byte_offset as int);
        lemma_ws_skip_utf8(src, bumped(src, p));
    }
}

pub proof fn lemma_name_rest_utf8(src: Seq<u8>, p: Position)
    requires
        src.len() <= usize::MAX,
        utf8_from(src, p.byte_offset as int),
    ensures
        utf8_from(src, name_rest(src, p).byte_offset as int),
    decreases src.len() - p.byte_offset,
{
    lemma_current_char(src, p.byte_offset as int);
    lemma_utf8_from_char(src, p.byte_offset as int);
    if let Some((c, l)) = current_char(src, p.byte_offset as int) {
        if crate::grammar::name_code(c as u32) {
            lemma_name_rest_utf8(src, crate::grammar::char_bumped(src, p, l));
        }
    }
}

pub proof fn lemma_scan_name_utf8(src: Seq<u8>, p: Position)
    requires
        src.len() <= usize::MAX,
        utf8_from(src, p.byte_offset as int),
    ensures
        utf8_from(src, scan_name(src, p).1.byte_offset as int),
{
    lemma_current_char(src, p.byte_offset as int);
    lemma_utf8_from_char(src, p.byte_offset as int);
    if let Some((c, l)) = current_char(src, p.byte_offset as int) {
        if name_start_code(c as u32) {
            lemma_name_rest_utf8(src, crate::grammar::char_bumped(src, p, l));
        }
    }
}

pub proof fn lemma_attr_value_rest_utf8(src: Seq<u8>, start: int, q: u8, p: Position)
    requires
        src.len() <= usize::MAX,
        utf8_from(src, start),
        start <= p.byte_offset <= src.len(),
        q < 0x80,
    ensures
        utf8_from(src, attr_value_rest(src, start, q, p).1.byte_offset as int),
    decreases src.len() - p.byte_offset,
{
    let o = p.byte_offset as int;
    match cur(src, p) {
        Some(c) => {
            if c == q || c == 0x3Cu8 {
                lemma_utf8_from_lead(src, start, o);
                lemma_utf8_from_ascii_step(src, o);
            } else if c == 0x26u8 {
                lemma_utf8_from_lead(src, start, o);
                lemma_scan_reference_utf8(src, p);
                crate::grammar::lemma_scan_reference(src, p);
                let (r, p2) = scan_reference(src, p);
                if r is Ok {
                    lemma_attr_value_rest_utf8(src, start, q, p2);
                }
            } else {
                lemma_attr_value_rest_utf8(src, start, q, bumped(src, p));
            }
        },
        None => lemma_utf8_from_end(src),
    }
}

pub proof fn lemma_scan_attr_value_utf8(src: Seq<u8>, p: Position)
    requires
        src.len() <= usize::MAX,
        utf8_from(src, p.byte_offset as int),
    ensures
        utf8_from(src, scan_attr_value(src, p).1.byte_offset as int),
{
    if let Some(q) = cur(src, p) {
        if q == 0x22u8 || q == 0x27u8 {
            lemma_utf8_from_ascii_step(src, p.byte_offset as int);
            let p1 = bumped(src, p);
            lemma_attr_value_rest_utf8(src, p1.byte_offset as int, q, p1);
        }
    }
}

pub proof fn lemma_scan_assignment_utf8(src: Seq<u8>, p: Position, what: Seq<char>)
    requires
        src.len() <= usize::MAX,
        utf8_from(src, p.byte_offset as int),
    ensures
        utf8_from(src, scan_assignment(src, p, what).1.byte_offset as int),
{
    lemma_ws_skip_utf8(src, p);
    let p3 = ws_skip(src, p);
    if cur(src, p3) == Some(0x3Du8) {
        lemma_utf8_from_ascii_step(src, p3.byte_offset as int);
        lemma_ws_skip_utf8(src, bumped(src, p3));
        lemma_scan_attr_value_utf8(src, ws_skip(src, bumped(src, p3)));
    }
}

pub proof fn lemma_scan_attribute_utf8(src: Seq<u8>, p: Position)
    requires
        src.len() <= usize::MAX,
        utf8_from(src, p.byte_offset as int),
    ensures
        utf8_from(src, scan_attribute(src, p).1.byte_offset as int),
{
    lemma_scan_name_utf8(src, p);
    lemma_scan_assignment_utf8(src, scan_name(src, p).1, "attribute name"@);
}

pub proof fn lemma_comment_rest_utf8(src: Seq<u8>, start: int, p: Position)
    requires
        src.len() <= usize::MAX,
        utf8_from(src, start),
        start <= p.byte_offset <= src.len(),
    ensures
        utf8_from(src, comment_rest(src, start, p).1.byte_offset as int),
    decreases src.len() - p.byte_offset,
{
    let o = p.byte_offset as int;
    if p.byte_offset >= src.len() {
        lemma_utf8_from_end(src);
    } else if cur(src, p) == Some(0x2Du8) && peek(src, p, 1) == Some(0x2Du8) {
        lemma_utf8_from_lead(src, start, o);
        if peek(src, p, 2) == Some(0x3Eu8) {
            lemma_utf8_from_ascii_run(src, o, 3);
        }
    } else {
        lemma_comment_rest_utf8(src, start, bumped(src, p));
    }
}

pub proof fn lemma_cdata_rest_utf8(src: Seq<u8>, start: int, p: Position)
    requires
        src.len() <= usize::MAX,
        utf8_from(src, start),
        start <= p.byte_offset <= src.len(),
    ensures
        utf8_from(src, cdata_rest(src, start, p).1.byte_offset as int),
    decreases src.len() - p.byte_offset,
{
    let o = p.byte_offset as int;
    if p.byte_offset >= src.len() {
        lemma_utf8_from_end(src);
    } else if cur(src, p) == Some(0x5Du8) && peek(src, p, 1) == Some(0x5Du8) && peek(src, p, 2)
        == Some(0x3Eu8) {
        lemma_utf8_from_lead(src, start, o);
        lemma_utf8_from_ascii_run(src, o, 3);
    } else {
        lemma_cdata_rest_utf8(src, start, bumped(src, p));
    }
}

pub proof fn lemma_pi_rest_utf8(src: Seq<u8>, start: int, p: Position)
    requires
        src.len() <= usize::MAX,
        utf8_from(src, start),
        start <= p.byte_offset <= src.len(),
    ensures
        utf8_from(src, pi_rest(src, start, p).1.byte_offset as int),
    decreases src.len() - p.byte_offset,
{
    let o = p.byte_offset as int;
    if p.byte_offset >= src.len() {
        lemma_utf8_from_end(src);
    } else if cur(src, p) == Some(0x3Fu8) && peek(src, p, 1) == Some(0x3Eu8) {
        lemma_utf8_from_lead(src, start, o);
        lemma_utf8_from_ascii_run(src, o, 2);
    } else {
        lemma_pi_rest_utf8(src, start, bumped(src, p));
    }
}

pub proof fn lemma_scan_pi_body_utf8(src: Seq<u8>, p: Position)
    requires
        src.len() <= usize::MAX,
        utf8_from(src, p.byte_offset as int),
    ensures
        utf8_from(src, scan_pi_body(src, p).1.byte_offset as int),
{
    lemma_ws_skip_utf8(src, p);
    lemma_ws_skip(src, p);
    let p1 = ws_skip(src, p);
    lemma_pi_rest_utf8(src, p1.byte_offset as int, p1);
}

pub proof fn lemma_text_rest_utf8(src: Seq<u8>, start: int, p: Position)
    requires
        src.len() <= usize::MAX,
        utf8_from(src, start),
        start <= p.byte_offset <= src.len(),
    ensures
        utf8_from(src, text_rest(src, start, p).1.byte_offset as int),
    decreases src.len() - p.byte_offset,
{
    let o = p.byte_offset as int;
    match cur(src, p) {
        None => lemma_utf8_from_end(src),
        Some(c) => {
            if c == 0x3Cu8 || c == 0x26u8 || (c == 0x5Du8 && peek(src, p, 1) == Some(0x5Du8)
                && peek(src, p, 2) == Some(0x3Eu8)) {
                lemma_utf8_from_lead(src, start, o);
            } else {
                lemma_text_rest_utf8(src, start, bumped(src, p));
            }
        },
    }
}

pub proof fn lemma_digits_rest_utf8(src: Seq<u8>, p: Position)
    requires
        src.len() <= usize::MAX,
        utf8_from(src, p.byte_offset as int),
    ensures
        utf8_from(src, digits_rest(src, p).1.byte_offset as int),
    decreases src.len() - p.byte_offset,
{
    if let Some(c) = cur(src, p) {
        if c != 0x3Bu8 && crate::text::is_hex_digit(c) {
            lemma_utf8_from_ascii_step(src, p.byte_offset as int);
            lemma_digits_rest_utf8(src, bumped(src, p));
        }
    }
}

pub proof fn lemma_scan_char_ref_utf8(src: Seq<u8>, p2: Position)
    requires
        src.len() <= usize::MAX,
        utf8_from(src, p2.byte_offset as int),
    ensures
        utf8_from(src, scan_char_ref(src, p2).1.byte_offset as int),
{
    let hex = cur(src, p2) == Some(0x78u8);
    if hex {
        lemma_utf8_from_ascii_step(src, p2.byte_offset as int);
    }
    let p3 = if hex {
        bumped(src, p2)
    } else {
        p2
    };
    lemma_digits_rest_utf8(src, p3);
    let p4 = digits_rest(src, p3).1;
    if cur(src, p4) == Some(0x3Bu8) {
        lemma_utf8_from_ascii_step(src, p4.byte_offset as int);
    }
}

pub proof fn lemma_scan_reference_utf8(src: Seq<u8>, p: Position)
    requires
        src.len() <= usize::MAX,
        utf8_from(src, p.byte_offset as int),
        cur(src, p) == Some(0x26u8),
    ensures
        utf8_from(src, scan_reference(src, p).1.byte_offset as int),
{
    lemma_utf8_from_ascii_step(src, p.byte_offset as int);
    let p1 = bumped(src, p);
    if cur(src, p1) == Some(0x23u8) {
        lemma_utf8_from_ascii_step(src, p1.byte_offset as int);
        lemma_scan_char_ref_utf8(src, bumped(src, p1));
    } else {
        lemma_scan_name_utf8(src, p1);
        let p2 = scan_name(src, p1).1;
        if cur(src, p2) == Some(0x3Bu8) {
            lemma_utf8_from_ascii_step(src, p2.byte_offset as int);
        }
    }
}

pub proof fn lemma_tag_rest_utf8(src: Seq<u8>, name: Seq<u8>, attrs: Seq<SpecAttr>, p: Position)
    requires
        src.len() <= usize::MAX,
        utf8_from(src, p.byte_offset as int),
    ensures
        utf8_from(src, tag_rest(src, name, attrs, p).1.byte_offset as int),
    decreases src.len() - p.byte_offset,
{
    lemma_ws_skip_utf8(src, p);
    lemma_ws_skip(src, p);
    let p1 = ws_skip(src, p);
    if let Some(c) = cur(src, p1) {
        if c == 0x3Eu8 {
            lemma_utf8_from_ascii_step(src, p1.byte_offset as int);
        } else if c == 0x2Fu8 {
            lemma_utf8_from_ascii_step(src, p1.byte_offset as int);
            let p2 = bumped(src, p1);
            if cur(src, p2) == Some(0x3Eu8) {
                lemma_utf8_from_ascii_step(src, p2.byte_offset as int);
            }
        } else if crate::grammar::starts_name(src, p1.byte_offset as int) {
            lemma_scan_attribute_utf8(src, p1);
            crate::grammar::lemma_scan_attribute(src, p1);
            let (ra, p5) = scan_attribute(src, p1);
            if let Ok(a) = ra {
                lemma_tag_rest_utf8(src, name, attrs.push(a), p5);
            }
        }
    }
}

pub proof fn lemma_scan_start_or_empty_utf8(src: Seq<u8>, p: Position)
    requires
        src.len() <= usize::MAX,
        utf8_from(src, p.byte_offset as int),
        cur(src, p) == Some(0x3Cu8),
    ensures
        utf8_from(src, scan_start_or_empty(src, p).1.byte_offset as int),
{
    lemma_utf8_from_ascii_step(src, p.byte_offset as int);
    lemma_scan_name_utf8(src, bumped(src, p));
    let (r, p2) = scan_name(src, bumped(src, p));
    if let Ok(name) = r {
        lemma_tag_rest_utf8(src, name, Seq::empty(), p2);
    }
}

pub proof fn lemma_scan_end_tag_utf8(src: Seq<u8>, p2: Position)
    requires
        src.len() <= usize::MAX,
        utf8_from(src, p2.byte_offset as int),
    ensures
        utf8_from(src, scan_end_tag(src, p2).1.byte_offset as int),
{
    lemma_scan_name_utf8(src, p2);
    let p3 = scan_name(src, p2).1;
    lemma_ws_skip_utf8(src, p3);
    let p4 = ws_skip(src, p3);
    if cur(src, p4) == Some(0x3Eu8) {
        lemma_utf8_from_ascii_step(src, p4.byte_offset as int);
    }
}

pub proof fn lemma_xmldecl_rest_utf8(
    src: Seq<u8>,
    version: Seq<u8>,
    encoding: Option<Seq<u8>>,
    standalone: Option<bool>,
    p: Position,
)
    requires
        src.len() <= usize::MAX,
        utf8_from(src, p.byte_offset as int),
    ensures
        utf8_from(src, xmldecl_rest(src, version, encoding, standalone, p).1.byte_offset as int),
    decreases src.len() - p.byte_offset,
{
    lemma_ws_skip_utf8(src, p);
    lemma_ws_skip(src, p);
    let p1 = ws_skip(src, p);
    let o1 = p1.byte_offset as int;
    if cur(src, p1) == Some(0x3Fu8) && peek(src, p1, 1) == Some(0x3Eu8) {
        lemma_utf8_from_ascii_run(src, o1, 2);
    } else if keyword_at(src, o1, kw_encoding()) {
        lemma_utf8_from_skip(src, p1, kw_encoding());
        lemma_scan_assignment_utf8(src, skipped(p1, 8), "encoding"@);
        crate::grammar::lemma_scan_assignment(src, skipped(p1, 8), "encoding"@);
        let (r, p5) = scan_assignment(src, skipped(p1, 8), "encoding"@);
        if let Ok(v) = r {
            lemma_xmldecl_rest_utf8(src, version, Some(v), standalone, p5);
        }
    } else if keyword_at(src, o1, kw_standalone()) {
        lemma_utf8_from_skip(src, p1, kw_standalone());
        lemma_scan_assignment_utf8(src, skipped(p1, 10), "standalone"@);
        crate::grammar::lemma_scan_assignment(src, skipped(p1, 10), "standalone"@);
        let (r, p5) = scan_assignment(src, skipped(p1, 10), "standalone"@);
        if let Ok(v) = r {
            lemma_xmldecl_rest_utf8(src, version, encoding, Some(true), p5);
            lemma_xmldecl_rest_utf8(src, version, encoding, Some(false), p5);
        }
    }
}

pub proof fn lemma_scan_xmldecl_utf8(src: Seq<u8>, p: Position)
    requires
        src.len() <= usize::MAX,
        utf8_from(src, p.byte_offset as int),
    ensures
        utf8_from(src, scan_xmldecl(src, p).1.byte_offset as int),
{
    lemma_ws_skip_utf8(src, p);
    lemma_ws_skip(src, p);
    let p1 = ws_skip(src, p);
    if keyword_at(src, p1.byte_offset as int, kw_version()) {
        lemma_utf8_from_skip(src, p1, kw_version());
        lemma_scan_assignment_utf8(src, skipped(p1, 7), "version"@);
        let (r, p5) = scan_assignment(src, skipped(p1, 7), "version"@);
        if let Ok(version) = r {
            lemma_xmldecl_rest_utf8(src, version, None, None, p5);
        }
    }
}

pub proof fn lemma_scan_pi_or_decl_utf8(src: Seq<u8>, p2: Position)
    requires
        src.len() <= usize::MAX,
        utf8_from(src, p2.byte_offset as int),
    ensures
        utf8_from(src, scan_pi_or_decl(src, p2).1.byte_offset as int),
{
    lemma_scan_name_utf8(src, p2);
    let (r, p3) = scan_name(src, p2);
    if let Ok(target) = r {
        if is_xml_target(target) {
            lemma_scan_xmldecl_utf8(src, p3);
        } else {
            lemma_scan_pi_body_utf8(src, p3);
        }
    }
}

pub proof fn lemma_doctype_rest_utf8(
    src: Seq<u8>,
    start: int,
    name: Seq<u8>,
    body_start: int,
    depth: int,
    p: Position,
)
    requires
        src.len() <= usize::MAX,
        utf8_from(src, start),
        start <= p.byte_offset <= src.len(),
    ensures
        utf8_from(src, doctype_rest(src, name, body_start, depth, p).1.byte_offset as int),
    decreases src.len() - p.byte_offset,
{
    let o = p.byte_offset as int;
    match cur(src, p) {
        None => lemma_utf8_from_end(src),
        Some(c) => {
            if c == 0x5Bu8 {
                lemma_doctype_rest_utf8(src, start, name, body_start, depth + 1, bumped(src, p));
            } else if c == 0x5Du8 {
                lemma_doctype_rest_utf8(src, start, name, body_start, depth - 1, bumped(src, p));
            } else if c == 0x3Eu8 && depth == 0 {
                lemma_utf8_from_lead(src, start, o);
                lemma_utf8_from_ascii_step(src, o);
            } else {
                lemma_doctype_rest_utf8(src, start, name, body_start, depth, bumped(src, p));
            }
        },
    }
}

pub proof fn lemma_scan_doctype_utf8(src: Seq<u8>, p: Position)
    requires
        src.len() <= usize::MAX,
        utf8_from(src, p.byte_offset as int),
        starts_at(src, p.byte_offset as int, kw_doctype_open()),
    ensures
        utf8_from(src, scan_doctype(src, p).1.byte_offset as int),
{
    lemma_utf8_from_skip(src, p, kw_doctype_open());
    lemma_ws_skip_utf8(src, skipped(p, 9));
    let p2 = ws_skip(src, skipped(p, 9));
    lemma_scan_name_utf8(src, p2);
    lemma_scan_name(src, p2);
    let (r, p3) = scan_name(src, p2);
    if let Ok(name) = r {
        lemma_doctype_rest_utf8(src, p3.byte_offset as int, name, p3.byte_offset as int, 0, p3);
    }
}

pub proof fn lemma_scan_bang_utf8(src: Seq<u8>, p: Position)
    requires
        src.len() <= usize::MAX,
        utf8_from(src, p.byte_offset as int),
    ensures
        utf8_from(src, scan_bang(src, p).1.byte_offset as int),
{
    let off = p.byte_offset as int;
    if starts_at(src, off, kw_comment_open()) {
        lemma_utf8_from_skip(src, p, kw_comment_open());
        let p1 = skipped(p, 4);
        lemma_comment_rest_utf8(src, p1.byte_offset as int, p1);
    } else if starts_at(src, off, kw_cdata_open()) {
        lemma_utf8_from_skip(src, p, kw_cdata_open());
        let p1 = skipped(p, 9);
        lemma_cdata_rest_utf8(src, p1.byte_offset as int, p1);
    } else if starts_at(src, off, kw_doctype_open()) {
        lemma_scan_doctype_utf8(src, p);
    }
}

pub proof fn lemma_scan_open_construct_utf8(src: Seq<u8>, p: Position)
    requires
        src.len() <= usize::MAX,
        utf8_from(src, p.byte_offset as int),
        cur(src, p) == Some(0x3Cu8),
    ensures
        utf8_from(src, scan_open_construct(src, p).1.byte_offset as int),
{
    let o = p.byte_offset as int;
    if let Some(b) = peek(src, p, 1) {
        if b == 0x2Fu8 {
            lemma_utf8_from_ascii_run(src, o, 2);
            lemma_scan_end_tag_utf8(src, bumped(src, bumped(src, p)));
        } else if b == 0x21u8 {
            lemma_scan_bang_utf8(src, p);
        } else if b == 0x3Fu8 {
            lemma_utf8_from_ascii_run(src, o, 2);
            lemma_scan_pi_or_decl_utf8(src, bumped(src, bumped(src, p)));
        } else {
            lemma_scan_start_or_empty_utf8(src, p);
        }
    }
}

/// The lexer rests at character boundaries: started at a boundary of its
/// input, `next_token` leaves it at a boundary again, whether it gives a
/// token, an error or the end. Every text a token carries lies between two
/// boundaries, so it is an exact slice of the input, never an empty stand-in.
pub proof fn law_next_token_stops_at_boundary(src: Seq<u8>, p: Position)
    requires
        src.len() <= usize::MAX,
        utf8_from(src, p.byte_offset as int),
    ensures
        utf8_from(src, next_token(src, p).1.byte_offset as int),
{
    let o = p.byte_offset as int;
    if p.byte_offset < src.len() {
        if src[o] == 0x3Cu8 {
            lemma_scan_open_construct_utf8(src, p);
        } else if src[o] == 0x26u8 {
            lemma_scan_reference_utf8(src, p);
        } else {
            lemma_text_rest_utf8(src, o, p);
        }
    }
}

} // verus!
