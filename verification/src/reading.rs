//! What the tokeniser reads whole: a delimited construct (comment, CDATA
//! section, processing instruction, quoted value, character data) is
//! exactly the text between its delimiters, names and references are read
//! as written, and the declarations of an internal subset are read in
//! order, each value exactly the text between its quotes.
use vstd::prelude::*;
use vstd::utf8::*;
use crate::boundary::lemma_ascii_valid;
use crate::entities::{
    decl_end, entity_keyword, is_xml_ws, lemma_find_byte, quote_end, subset_declarations, word_end,
    ws_end,
};
use crate::error::Position;
use crate::grammar::{
    attr_value_rest, bumped, cdata_rest, char_bumped, comment_rest, cur, current_char, digits_rest,
    is_xml_target, keyword_at, kw_cdata_open, kw_comment_open, kw_encoding, kw_standalone,
    kw_version, name_rest, next_token, pi_rest, scan_assignment, scan_attr_value, scan_attribute,
    scan_name, scan_open_construct, scan_pi_or_decl, scan_start_or_empty, skipped, starts_at,
    starts_name, tag_rest, text_no, text_rest, text_yes, ws_skip, xmldecl_rest,
};
use crate::laws::{no_double_dash, no_markup};
use crate::text::{is_hex_digit, parse_radix};
use crate::token::{SpecAttr, SpecToken, SpecXmlDecl};

verus! {

// ---------------------------------------------------------------------------
// Delimited text is read whole
// ---------------------------------------------------------------------------

proof fn lemma_attr_value_rest_exact(src: Seq<u8>, start: int, q: u8, v: Seq<u8>, p: Position)
    requires
        src.len() <= usize::MAX,
        0 <= start <= p.byte_offset <= start + v.len(),
        start + v.len() < src.len(),
        forall|j: int| 0 <= j < v.len() ==> #[trigger] src[start + j] == v[j],
        src[start + v.len()] == q,
        forall|j: int| 0 <= j < v.len() ==> #[trigger] v[j] != q && v[j] != 0x3Cu8 && v[j] != 0x26u8,
    ensures
        attr_value_rest(src, start, q, p).0 == Ok::<Seq<u8>, crate::error::ErrorKind>(v),
        attr_value_rest(src, start, q, p).1.byte_offset == start + v.len() + 1,
    decreases start + v.len() - p.byte_offset,
{
    let k = p.byte_offset - start;
    if k < v.len() {
        assert(src[start + k] == v[k]);
        lemma_attr_value_rest_exact(src, start, q, v, bumped(src, p));
    } else {
        assert forall|j: int| 0 <= j < v.len() implies src.subrange(start, start + v.len())[j]
            == v[j] by {
            assert(src[start + j] == v[j]);
        }
        assert(src.subrange(start, start + v.len()) =~= v);
    }
}

/// A quoted attribute value is exactly the text between its quotes: where
/// the input holds a quote `q`, then `v`, then `q` again, and `v` holds no
/// `q`, no `<` and no reference, the value is `v` (the other quote character
/// included), and scanning ends just after the closing quote.
pub proof fn law_attribute_value_is_the_quoted_text(src: Seq<u8>, p: Position, q: u8, v: Seq<u8>)
    requires
        src.len() <= usize::MAX,
        q == 0x22u8 || q == 0x27u8,
        p.byte_offset + v.len() + 2 <= src.len(),
        src[p.byte_offset as int] == q,
        forall|j: int| 0 <= j < v.len() ==> #[trigger] src[p.byte_offset + 1 + j] == v[j],
        src[p.byte_offset + 1 + v.len()] == q,
        forall|j: int| 0 <= j < v.len() ==> #[trigger] v[j] != q && v[j] != 0x3Cu8 && v[j] != 0x26u8,
    ensures
        scan_attr_value(src, p).0 == Ok::<Seq<u8>, crate::error::ErrorKind>(v),
        scan_attr_value(src, p).1.byte_offset == p.byte_offset + v.len() + 2,
{
    let start = p.byte_offset + 1;
    assert forall|j: int| 0 <= j < v.len() implies #[trigger] src[start + j] == v[j] by {
        assert(src[p.byte_offset + 1 + j] == v[j]);
    }
    lemma_attr_value_rest_exact(src, start, q, v, bumped(src, p));
}

proof fn lemma_comment_rest_exact(src: Seq<u8>, start: int, b: Seq<u8>, p: Position)
    requires
        src.len() <= usize::MAX,
        0 <= start <= p.byte_offset <= start + b.len(),
        start + b.len() + 3 <= src.len(),
        forall|j: int| 0 <= j < b.len() ==> #[trigger] src[start + j] == b[j],
        src[start + b.len()] == 0x2Du8,
        src[start + b.len() + 1] == 0x2Du8,
        src[start + b.len() + 2] == 0x3Eu8,
        no_double_dash(b),
        !(b.len() > 0 && b.last() == 0x2Du8),
    ensures
        comment_rest(src, start, p).0 == Ok::<Seq<u8>, crate::error::ErrorKind>(b),
        comment_rest(src, start, p).1.byte_offset == start + b.len() + 3,
    decreases start + b.len() - p.byte_offset,
{
    let k = p.byte_offset - start;
    if k < b.len() {
        assert(src[start + k] == b[k]);
        if k + 1 < b.len() {
            assert(src[start + (k + 1)] == b[k + 1]);
        }
        lemma_comment_rest_exact(src, start, b, bumped(src, p));
    } else {
        assert forall|j: int| 0 <= j < b.len() implies src.subrange(start, start + b.len())[j]
            == b[j] by {
            assert(src[start + j] == b[j]);
        }
        assert(src.subrange(start, start + b.len()) =~= b);
    }
}

/// A comment is read whole: where the input holds `<!--`, then a body `b`
/// with no `--` pair that does not end in `-`, then `-->`, the next token is
/// the comment `b` (single hyphens and all), and it ends just after `-->`.
pub proof fn law_comment_is_read_whole(src: Seq<u8>, p: Position, b: Seq<u8>)
    requires
        src.len() <= usize::MAX,
        p.byte_offset + b.len() + 7 <= src.len(),
        src.subrange(p.byte_offset as int, p.byte_offset + 4) == kw_comment_open(),
        forall|j: int| 0 <= j < b.len() ==> #[trigger] src[p.byte_offset + 4 + j] == b[j],
        src.subrange(p.byte_offset + 4 + b.len(), p.byte_offset + b.len() + 7) == seq![
            0x2Du8,
            0x2Du8,
            0x3Eu8,
        ],
        no_double_dash(b),
        !(b.len() > 0 && b.last() == 0x2Du8),
    ensures
        next_token(src, p).0 == Ok::<Option<SpecToken>, crate::error::ErrorKind>(
            Some(SpecToken::Comment(b)),
        ),
        next_token(src, p).1.byte_offset == p.byte_offset + b.len() + 7,
{
    let o = p.byte_offset as int;
    let start = o + 4;
    let tail = src.subrange(start + b.len(), o + b.len() + 7);
    assert(tail[0] == src[start + b.len()]);
    assert(tail[1] == src[start + b.len() + 1]);
    assert(tail[2] == src[start + b.len() + 2]);
    let head = src.subrange(o, o + 4);
    assert(head[0] == src[o]);
    assert(head[1] == src[o + 1]);
    assert(src.subrange(o, src.len() as int).subrange(0, 4) =~= head);
    assert forall|j: int| 0 <= j < b.len() implies #[trigger] src[start + j] == b[j] by {
        assert(src[o + 4 + j] == b[j]);
    }
    lemma_comment_rest_exact(src, start, b, crate::grammar::skipped(p, 4));
}

/// No `]]>` in the bytes.
pub open spec fn no_cdata_close(b: Seq<u8>) -> bool {
    forall|i: int|
        0 <= i && i + 2 < b.len() ==> !(b[i] == 0x5Du8 && b[i + 1] == 0x5Du8 && #[trigger] b[i
            + 2] == 0x3Eu8)
}

proof fn lemma_cdata_rest_exact(src: Seq<u8>, start: int, b: Seq<u8>, p: Position)
    requires
        src.len() <= usize::MAX,
        0 <= start <= p.byte_offset <= start + b.len(),
        start + b.len() + 3 <= src.len(),
        forall|j: int| 0 <= j < b.len() ==> #[trigger] src[start + j] == b[j],
        src[start + b.len()] == 0x5Du8,
        src[start + b.len() + 1] == 0x5Du8,
        src[start + b.len() + 2] == 0x3Eu8,
        no_cdata_close(b),
    ensures
        cdata_rest(src, start, p).0 == Ok::<Seq<u8>, crate::error::ErrorKind>(b),
        cdata_rest(src, start, p).1.byte_offset == start + b.len() + 3,
    decreases start + b.len() - p.byte_offset,
{
    let k = p.byte_offset - start;
    if k < b.len() {
        assert(src[start + k] == b[k]);
        if k + 1 < b.len() {
            assert(src[start + (k + 1)] == b[k + 1]);
        }
        if k + 2 < b.len() {
            assert(src[start + (k + 2)] == b[k + 2]);
        }
        lemma_cdata_rest_exact(src, start, b, bumped(src, p));
    } else {
        assert forall|j: int| 0 <= j < b.len() implies src.subrange(start, start + b.len())[j]
            == b[j] by {
            assert(src[start + j] == b[j]);
        }
        assert(src.subrange(start, start + b.len()) =~= b);
    }
}

/// A CDATA section is read whole: where the input holds `<![CDATA[`, then a
/// body `b` with no `]]>` in it, then `]]>`, the next token is the section
/// `b` (markup characters and single brackets included), and it ends just
/// after `]]>`.
pub proof fn law_cdata_is_read_whole(src: Seq<u8>, p: Position, b: Seq<u8>)
    requires
        src.len() <= usize::MAX,
        p.byte_offset + b.len() + 12 <= src.len(),
        src.subrange(p.byte_offset as int, p.byte_offset + 9) == kw_cdata_open(),
        forall|j: int| 0 <= j < b.len() ==> #[trigger] src[p.byte_offset + 9 + j] == b[j],
        src.subrange(p.byte_offset + 9 + b.len(), p.byte_offset + b.len() + 12) == seq![
            0x5Du8,
            0x5Du8,
            0x3Eu8,
        ],
        no_cdata_close(b),
    ensures
        next_token(src, p).0 == Ok::<Option<SpecToken>, crate::error::ErrorKind>(
            Some(SpecToken::CData(b)),
        ),
        next_token(src, p).1.byte_offset == p.byte_offset + b.len() + 12,
{
    let o = p.byte_offset as int;
    let start = o + 9;
    let tail = src.subrange(start + b.len(), o + b.len() + 12);
    assert(tail[0] == src[start + b.len()]);
    assert(tail[1] == src[start + b.len() + 1]);
    assert(tail[2] == src[start + b.len() + 2]);
    let head = src.subrange(o, o + 9);
    assert(head[0] == src[o]);
    assert(head[1] == src[o + 1]);
    assert(head[2] == src[o + 2]);
    assert(src.subrange(o, src.len() as int).subrange(0, 4) != kw_comment_open()) by {
        assert(src.subrange(o, src.len() as int).subrange(0, 4)[2] == head[2]);
    }
    assert(src.subrange(o, src.len() as int).subrange(0, 9) =~= head);
    assert forall|j: int| 0 <= j < b.len() implies #[trigger] src[start + j] == b[j] by {
        assert(src[o + 9 + j] == b[j]);
    }
    lemma_cdata_rest_exact(src, start, b, crate::grammar::skipped(p, 9));
}

proof fn lemma_text_rest_exact(src: Seq<u8>, start: int, b: Seq<u8>, p: Position)
    requires
        src.len() <= usize::MAX,
        0 <= start <= p.byte_offset <= start + b.len() <= src.len(),
        forall|j: int| 0 <= j < b.len() ==> #[trigger] src[start + j] == b[j],
        start + b.len() == src.len() || src[start + b.len()] == 0x3Cu8 || src[start + b.len()]
            == 0x26u8,
        no_markup(b),
        no_cdata_close(b),
    ensures
        text_rest(src, start, p).0 == Ok::<SpecToken, crate::error::ErrorKind>(
            SpecToken::Text(b),
        ),
        text_rest(src, start, p).1.byte_offset == start + b.len(),
    decreases start + b.len() - p.byte_offset,
{
    let k = p.byte_offset - start;
    if k < b.len() {
        assert(src[start + k] == b[k]);
        assert(b[k] != 0x3Cu8 && b[k] != 0x26u8);
        if k + 1 < b.len() {
            assert(src[start + (k + 1)] == b[k + 1]);
        }
        if k + 2 < b.len() {
            assert(src[start + (k + 2)] == b[k + 2]);
        }
        lemma_text_rest_exact(src, start, b, bumped(src, p));
    } else {
        assert forall|j: int| 0 <= j < b.len() implies src.subrange(start, start + b.len())[j]
            == b[j] by {
            assert(src[start + j] == b[j]);
        }
        assert(src.subrange(start, start + b.len()) =~= b);
    }
}

/// Character data is read whole: where the input holds a non-empty run `b`
/// with no `<`, no `&` and no `]]>`, and the run ends at the end of the
/// input or at a `<` or `&`, the next token is the text `b` (quotes, `>` and
/// single brackets included), and it ends just after it.
pub proof fn law_text_is_read_whole(src: Seq<u8>, p: Position, b: Seq<u8>)
    requires
        src.len() <= usize::MAX,
        b.len() > 0,
        p.byte_offset + b.len() <= src.len(),
        forall|j: int| 0 <= j < b.len() ==> #[trigger] src[p.byte_offset + j] == b[j],
        p.byte_offset + b.len() == src.len() || src[p.byte_offset + b.len()] == 0x3Cu8
            || src[p.byte_offset + b.len()] == 0x26u8,
        no_markup(b),
        no_cdata_close(b),
    ensures
        next_token(src, p).0 == Ok::<Option<SpecToken>, crate::error::ErrorKind>(
            Some(SpecToken::Text(b)),
        ),
        next_token(src, p).1.byte_offset == p.byte_offset + b.len(),
{
    let o = p.byte_offset as int;
    assert(src[o + 0] == b[0]);
    assert(b[0] != 0x3Cu8 && b[0] != 0x26u8);
    lemma_text_rest_exact(src, o, b, p);
}

/// The number of line feeds in the bytes.
pub open spec fn lf_count(s: Seq<u8>) -> nat
    decreases s.len(),
{
    if s.len() == 0 {
        0
    } else {
        (if s[0] == 0x0Au8 { 1nat } else { 0nat }) + lf_count(s.drop_first())
    }
}

/// The index of the last line feed in the bytes, or -1 when there is none.
pub open spec fn last_lf(s: Seq<u8>) -> int
    decreases s.len(),
{
    if s.len() == 0 {
        -1
    } else if last_lf(s.drop_first()) >= 0 {
        last_lf(s.drop_first()) + 1
    } else if s[0] == 0x0Au8 {
        0
    } else {
        -1
    }
}

proof fn lemma_text_rest_position(src: Seq<u8>, start: int, b: Seq<u8>, p: Position)
    requires
        src.len() <= usize::MAX,
        0 <= start <= p.byte_offset <= start + b.len() <= src.len(),
        forall|j: int| 0 <= j < b.len() ==> #[trigger] src[start + j] == b[j],
        start + b.len() == src.len() || src[start + b.len()] == 0x3Cu8 || src[start + b.len()]
            == 0x26u8,
        no_markup(b),
        no_cdata_close(b),
        p.line + lf_count(b.subrange(p.byte_offset - start, b.len() as int)) <= u32::MAX,
        p.column + (start + b.len() - p.byte_offset) <= u32::MAX,
    ensures
        text_rest(src, start, p).1.line == p.line + lf_count(
            b.subrange(p.byte_offset - start, b.len() as int),
        ),
        text_rest(src, start, p).1.column == (if last_lf(
            b.subrange(p.byte_offset - start, b.len() as int),
        ) < 0 {
            p.column + (start + b.len() - p.byte_offset)
        } else {
            (start + b.len() - p.byte_offset) - last_lf(
                b.subrange(p.byte_offset - start, b.len() as int),
            )
        }),
    decreases start + b.len() - p.byte_offset,
{
    let k = p.byte_offset - start;
    let sk = b.subrange(k, b.len() as int);
    if k < b.len() {
        assert(src[start + k] == b[k]);
        assert(b[k] != 0x3Cu8 && b[k] != 0x26u8);
        if k + 1 < b.len() {
            assert(src[start + (k + 1)] == b[k + 1]);
        }
        if k + 2 < b.len() {
            assert(src[start + (k + 2)] == b[k + 2]);
        }
        assert(sk.drop_first() =~= b.subrange(k + 1, b.len() as int));
        assert(sk[0] == b[k]);
        lemma_text_rest_position(src, start, b, bumped(src, p));
    } else {
        assert(sk.len() == 0);
    }
}

/// Reading character data keeps count of lines and columns: past a text
/// `b`, the line has moved on by the number of line feeds in `b`, and the
/// column is one past the bytes after the last of them (or, with none, has
/// moved on by the length of `b`).
pub proof fn law_text_position(src: Seq<u8>, p: Position, b: Seq<u8>)
    requires
        src.len() <= usize::MAX,
        b.len() > 0,
        p.byte_offset + b.len() <= src.len(),
        forall|j: int| 0 <= j < b.len() ==> #[trigger] src[p.byte_offset + j] == b[j],
        p.byte_offset + b.len() == src.len() || src[p.byte_offset + b.len()] == 0x3Cu8
            || src[p.byte_offset + b.len()] == 0x26u8,
        no_markup(b),
        no_cdata_close(b),
        p.line + lf_count(b) <= u32::MAX,
        p.column + b.len() <= u32::MAX,
    ensures
        next_token(src, p).1.line == p.line + lf_count(b),
        next_token(src, p).1.column == (if last_lf(b) < 0 {
            p.column + b.len()
        } else {
            b.len() - last_lf(b)
        }),
{
    let o = p.byte_offset as int;
    assert(src[o + 0] == b[0]);
    assert(b[0] != 0x3Cu8 && b[0] != 0x26u8);
    assert(b.subrange(0, b.len() as int) =~= b);
    lemma_text_rest_position(src, o, b, p);
}

// ---------------------------------------------------------------------------
// Names
// ---------------------------------------------------------------------------

/// An ASCII NameStartChar: a letter, `_` or `:`.
pub open spec fn ascii_name_start(b: u8) -> bool {
    ||| 0x41u8 <= b <= 0x5Au8
    ||| 0x61u8 <= b <= 0x7Au8
    ||| b == 0x5Fu8
    ||| b == 0x3Au8
}

/// An ASCII NameChar: a NameStartChar, a digit, `-` or `.`.
pub open spec fn ascii_name_byte(b: u8) -> bool {
    ||| ascii_name_start(b)
    ||| 0x30u8 <= b <= 0x39u8
    ||| b == 0x2Du8
    ||| b == 0x2Eu8
}

/// A Name written in ASCII.
pub open spec fn ascii_name(b: Seq<u8>) -> bool {
    &&& b.len() > 0
    &&& ascii_name_start(b[0])
    &&& forall|j: int| 0 <= j < b.len() ==> ascii_name_byte(#[trigger] b[j])
}

proof fn lemma_ascii_char(src: Seq<u8>, off: int)
    requires
        0 <= off < src.len(),
        src[off] < 0x80u8,
    ensures
        current_char(src, off) matches Some((c, l)) && l == 1 && c as u32 == src[off] as u32,
{
    let b = src[off];
    let chunk = src.subrange(off, off + 1);
    assert(chunk[0] == b);
    lemma_ascii_valid(chunk);
    assert((b & 0x7Fu8) == b) by (bit_vector)
        requires
            b < 0x80u8,
    ;
    assert(decode_utf8(chunk)[0] == decode_first_scalar(chunk) as char);
}

proof fn lemma_name_rest_exact(src: Seq<u8>, p: Position, end: int)
    requires
        src.len() <= usize::MAX,
        p.byte_offset <= end <= src.len(),
        forall|j: int| p.byte_offset <= j < end ==> ascii_name_byte(#[trigger] src[j]),
        end == src.len() || (src[end] < 0x80u8 && !ascii_name_byte(src[end])),
    ensures
        name_rest(src, p).byte_offset == end,
    decreases end - p.byte_offset,
{
    let o = p.byte_offset as int;
    if o < end {
        assert(ascii_name_byte(src[o]));
        lemma_ascii_char(src, o);
        lemma_name_rest_exact(src, char_bumped(src, p, 1), end);
    } else if end < src.len() {
        lemma_ascii_char(src, o);
    }
}

/// Where the input holds the ASCII Name `b` at `p`, followed by the end of
/// the input or by an ASCII byte that cannot continue a Name, the Name read
/// there is `b`, and reading ends just after it.
proof fn lemma_scan_name_exact(src: Seq<u8>, p: Position, b: Seq<u8>)
    requires
        src.len() <= usize::MAX,
        ascii_name(b),
        p.byte_offset + b.len() <= src.len(),
        forall|j: int| 0 <= j < b.len() ==> #[trigger] src[p.byte_offset + j] == b[j],
        p.byte_offset + b.len() == src.len() || (src[p.byte_offset + b.len()] < 0x80u8
            && !ascii_name_byte(src[p.byte_offset + b.len()])),
    ensures
        scan_name(src, p).0 == Ok::<Seq<u8>, crate::error::ErrorKind>(b),
        scan_name(src, p).1.byte_offset == p.byte_offset + b.len(),
{
    let o = p.byte_offset as int;
    let n = b.len() as int;
    assert(src[o + 0] == b[0]);
    lemma_ascii_char(src, o);
    assert forall|j: int| o + 1 <= j < o + n implies ascii_name_byte(#[trigger] src[j]) by {
        assert(src[o + (j - o)] == b[j - o]);
    }
    lemma_name_rest_exact(src, char_bumped(src, p, 1), o + n);
    assert forall|j: int| 0 <= j < n implies src.subrange(o, o + n)[j] == b[j] by {
        assert(src[o + j] == b[j]);
    }
    assert(src.subrange(o, o + n) =~= b);
}

/// An end tag `</b>` whose name `b` is written in ASCII is read as the end
/// tag of `b`, and reading ends just after its `>`.
pub proof fn law_end_tag_is_read_whole(src: Seq<u8>, p: Position, b: Seq<u8>)
    requires
        src.len() <= usize::MAX,
        ascii_name(b),
        p.byte_offset + b.len() + 3 <= src.len(),
        src[p.byte_offset as int] == 0x3Cu8,
        src[p.byte_offset + 1] == 0x2Fu8,
        forall|j: int| 0 <= j < b.len() ==> #[trigger] src[p.byte_offset + 2 + j] == b[j],
        src[p.byte_offset + 2 + b.len()] == 0x3Eu8,
    ensures
        next_token(src, p).0 == Ok::<Option<SpecToken>, crate::error::ErrorKind>(
            Some(SpecToken::EndTag(b)),
        ),
        next_token(src, p).1.byte_offset == p.byte_offset + b.len() + 3,
{
    let p2 = bumped(src, bumped(src, p));
    assert forall|j: int| 0 <= j < b.len() implies #[trigger] src[p2.byte_offset + j] == b[j] by {
        assert(src[p.byte_offset + 2 + j] == b[j]);
    }
    lemma_scan_name_exact(src, p2, b);
}

/// An entity reference `&b;` whose name `b` is written in ASCII is read as
/// the reference to `b`, and reading ends just after its `;`.
pub proof fn law_entity_ref_is_read_whole(src: Seq<u8>, p: Position, b: Seq<u8>)
    requires
        src.len() <= usize::MAX,
        ascii_name(b),
        p.byte_offset + b.len() + 2 <= src.len(),
        src[p.byte_offset as int] == 0x26u8,
        forall|j: int| 0 <= j < b.len() ==> #[trigger] src[p.byte_offset + 1 + j] == b[j],
        src[p.byte_offset + 1 + b.len()] == 0x3Bu8,
    ensures
        next_token(src, p).0 == Ok::<Option<SpecToken>, crate::error::ErrorKind>(
            Some(SpecToken::EntityRef(b)),
        ),
        next_token(src, p).1.byte_offset == p.byte_offset + b.len() + 2,
{
    let p1 = bumped(src, p);
    assert forall|j: int| 0 <= j < b.len() implies #[trigger] src[p1.byte_offset + j] == b[j] by {
        assert(src[p.byte_offset + 1 + j] == b[j]);
    }
    assert(src[p1.byte_offset + 0] == b[0]);
    lemma_scan_name_exact(src, p1, b);
}

/// A start tag `<b>` or an empty-element tag `<b/>` whose name `b` is
/// written in ASCII is read as that tag with no attributes, and reading ends
/// just after its `>`.
pub proof fn law_bare_tag_is_read_whole(src: Seq<u8>, p: Position, b: Seq<u8>, empty: bool)
    requires
        src.len() <= usize::MAX,
        ascii_name(b),
        p.byte_offset + b.len() + 2 + (if empty { 1int } else { 0int }) <= src.len(),
        src[p.byte_offset as int] == 0x3Cu8,
        forall|j: int| 0 <= j < b.len() ==> #[trigger] src[p.byte_offset + 1 + j] == b[j],
        empty ==> src[p.byte_offset + 1 + b.len()] == 0x2Fu8 && src[p.byte_offset + 2 + b.len()]
            == 0x3Eu8,
        !empty ==> src[p.byte_offset + 1 + b.len()] == 0x3Eu8,
    ensures
        !empty ==> next_token(src, p).0 == Ok::<Option<SpecToken>, crate::error::ErrorKind>(
            Some(SpecToken::StartTag { name: b, attributes: Seq::empty() }),
        ),
        empty ==> next_token(src, p).0 == Ok::<Option<SpecToken>, crate::error::ErrorKind>(
            Some(SpecToken::EmptyTag { name: b, attributes: Seq::empty() }),
        ),
        next_token(src, p).1.byte_offset == p.byte_offset + b.len() + 2 + (if empty {
            1int
        } else {
            0int
        }),
{
    let p1 = bumped(src, p);
    assert forall|j: int| 0 <= j < b.len() implies #[trigger] src[p1.byte_offset + j] == b[j] by {
        assert(src[p.byte_offset + 1 + j] == b[j]);
    }
    assert(src[p.byte_offset + 1 + 0] == b[0]);
    lemma_scan_name_exact(src, p1, b);
}

/// A start tag `<b a=qvq>` with one attribute, whose names are written in
/// ASCII and whose value `v` holds no `q`, no `<` and no `&`, is read as the
/// start tag of `b` with the one attribute `a` of value exactly `v` (the
/// other quote character included), found just after the space; reading
/// ends just after the tag's `>`.
pub proof fn law_attribute_in_tag_is_the_quoted_text(
    src: Seq<u8>,
    p: Position,
    b: Seq<u8>,
    a: Seq<u8>,
    q: u8,
    v: Seq<u8>,
)
    requires
        src.len() <= usize::MAX,
        ascii_name(b),
        ascii_name(a),
        q == 0x22u8 || q == 0x27u8,
        p.byte_offset + b.len() + a.len() + v.len() + 6 <= src.len(),
        src[p.byte_offset as int] == 0x3Cu8,
        forall|j: int| 0 <= j < b.len() ==> #[trigger] src[p.byte_offset + 1 + j] == b[j],
        src[p.byte_offset + 1 + b.len()] == 0x20u8,
        forall|j: int| 0 <= j < a.len() ==> #[trigger] src[p.byte_offset + 2 + b.len() + j] == a[j],
        src[p.byte_offset + 2 + b.len() + a.len()] == 0x3Du8,
        src[p.byte_offset + 3 + b.len() + a.len()] == q,
        forall|j: int|
            0 <= j < v.len() ==> #[trigger] src[p.byte_offset + 4 + b.len() + a.len() + j] == v[j],
        src[p.byte_offset + 4 + b.len() + a.len() + v.len()] == q,
        src[p.byte_offset + 5 + b.len() + a.len() + v.len()] == 0x3Eu8,
        forall|j: int| 0 <= j < v.len() ==> #[trigger] v[j] != q && v[j] != 0x3Cu8 && v[j] != 0x26u8,
    ensures
        next_token(src, p).0 matches Ok(Some(SpecToken::StartTag { name, attributes })) && name
            == b && attributes.len() == 1 && attributes[0].name == a && attributes[0].value == v
            && attributes[0].pos.byte_offset == p.byte_offset + 2 + b.len(),
        next_token(src, p).1.byte_offset == p.byte_offset + b.len() + a.len() + v.len() + 6,
{
    let o = p.byte_offset as int;
    let n = b.len() as int;
    let m = a.len() as int;
    let p1 = bumped(src, p);
    assert forall|j: int| 0 <= j < n implies #[trigger] src[p1.byte_offset + j] == b[j] by {
        assert(src[o + 1 + j] == b[j]);
    }
    assert(src[o + 1 + 0] == b[0]);
    lemma_scan_name_exact(src, p1, b);
    let p2 = scan_name(src, p1).1;
    let pa = bumped(src, p2);
    assert(src[o + 2 + n + 0] == a[0]);
    assert(ws_skip(src, pa) == pa);
    assert(ws_skip(src, p2) == ws_skip(src, pa));
    lemma_ascii_char(src, o + 2 + n);
    assert forall|j: int| 0 <= j < m implies #[trigger] src[pa.byte_offset + j] == a[j] by {
        assert(src[o + 2 + n + j] == a[j]);
    }
    lemma_scan_name_exact(src, pa, a);
    let p3 = scan_name(src, pa).1;
    let pv = bumped(src, p3);
    assert(ws_skip(src, pv) == pv);
    assert forall|j: int| 0 <= j < v.len() implies #[trigger] src[pv.byte_offset + 1 + j] == v[j] by {
        assert(src[o + 4 + n + m + j] == v[j]);
    }
    law_attribute_value_is_the_quoted_text(src, pv, q, v);
    let p5 = scan_attr_value(src, pv).1;
    assert(ws_skip(src, p3) == p3);
    assert(scan_assignment(src, p3, "attribute name"@) == scan_attr_value(src, pv));
    let attr = SpecAttr { name: a, value: v, pos: pa };
    assert(scan_attribute(src, pa) == (Ok::<SpecAttr, crate::error::ErrorKind>(attr), p5));
    assert(starts_name(src, pa.byte_offset as int));
    assert(ws_skip(src, p5) == p5);
    assert(tag_rest(src, b, seq![attr], p5).0 == Ok::<SpecToken, crate::error::ErrorKind>(
        SpecToken::StartTag { name: b, attributes: seq![attr] },
    ));
    assert(Seq::<SpecAttr>::empty().push(attr) == seq![attr]);
    assert(tag_rest(src, b, Seq::empty(), p2) == tag_rest(src, b, seq![attr], p5));
    assert(src[o + 1 + 0] == b[0]);
    assert(scan_open_construct(src, p) == scan_start_or_empty(src, p));
}

/// The bytes `s` stand in `src` at offset `at`.
pub open spec fn holds_at(src: Seq<u8>, at: int, s: Seq<u8>) -> bool {
    &&& 0 <= at
    &&& at + s.len() <= src.len()
    &&& forall|j: int| 0 <= j < s.len() ==> #[trigger] src[at + j] == s[j]
}

proof fn lemma_starts_at(src: Seq<u8>, at: int, s: Seq<u8>)
    requires
        holds_at(src, at, s),
    ensures
        starts_at(src, at, s),
{
    assert forall|j: int| 0 <= j < s.len() implies src.subrange(at, src.len() as int).subrange(
        0,
        s.len() as int,
    )[j] == s[j] by {
        assert(src[at + j] == s[j]);
    }
    assert(src.subrange(at, src.len() as int).subrange(0, s.len() as int) =~= s);
}

/// `= qvq` right after a keyword that ends at `p`, where `v` holds no `q`,
/// no `<` and no `&`, is read as the value `v`, ending just after the
/// closing quote.
proof fn lemma_assignment_exact(src: Seq<u8>, p: Position, q: u8, v: Seq<u8>, what: Seq<char>)
    requires
        src.len() <= usize::MAX,
        q == 0x22u8 || q == 0x27u8,
        p.byte_offset + v.len() + 3 <= src.len(),
        src[p.byte_offset as int] == 0x3Du8,
        src[p.byte_offset + 1] == q,
        holds_at(src, p.byte_offset + 2, v),
        src[p.byte_offset + 2 + v.len()] == q,
        forall|j: int| 0 <= j < v.len() ==> #[trigger] v[j] != q && v[j] != 0x3Cu8 && v[j] != 0x26u8,
    ensures
        scan_assignment(src, p, what).0 == Ok::<Seq<u8>, crate::error::ErrorKind>(v),
        scan_assignment(src, p, what).1.byte_offset == p.byte_offset + v.len() + 3,
{
    let pv = bumped(src, p);
    assert(ws_skip(src, p) == p);
    assert(ws_skip(src, pv) == pv);
    assert forall|j: int| 0 <= j < v.len() implies #[trigger] src[pv.byte_offset + 1 + j] == v[j] by {
        assert(src[p.byte_offset + 2 + j] == v[j]);
    }
    law_attribute_value_is_the_quoted_text(src, pv, q, v);
}

/// White space and then the keyword `kw`, assigned `= qvq`, from `p` on.
pub open spec fn pseudo_attribute_at(src: Seq<u8>, at: int, kw: Seq<u8>, q: u8, v: Seq<u8>) -> bool {
    &&& src.len() > at >= 0
    &&& src[at] == 0x20u8
    &&& holds_at(src, at + 1, kw)
    &&& holds_at(src, at + 1 + kw.len(), seq![0x3Du8, q])
    &&& holds_at(src, at + 3 + kw.len(), v)
    &&& holds_at(src, at + 3 + kw.len() + v.len(), seq![q])
}

/// A quoted value that needs no further reading: no `q`, no `<`, no `&`.
pub open spec fn plain_quoted(q: u8, v: Seq<u8>) -> bool {
    &&& q == 0x22u8 || q == 0x27u8
    &&& forall|j: int| 0 <= j < v.len() ==> #[trigger] v[j] != q && v[j] != 0x3Cu8 && v[j] != 0x26u8
}

/// A keyword of ASCII letters, followed at `p` by ` kw=qvq`, is read there:
/// the white space is skipped, the keyword found whole, and the value is `v`.
proof fn lemma_pseudo_attribute(src: Seq<u8>, p: Position, kw: Seq<u8>, q: u8, v: Seq<u8>, what: Seq<char>)
    requires
        src.len() <= usize::MAX,
        pseudo_attribute_at(src, p.byte_offset as int, kw, q, v),
        plain_quoted(q, v),
        kw.len() > 0,
        forall|j: int| 0 <= j < kw.len() ==> 0x61u8 <= #[trigger] kw[j] <= 0x7Au8,
    ensures
        ws_skip(src, p).byte_offset == p.byte_offset + 1,
        keyword_at(src, p.byte_offset + 1, kw),
        scan_assignment(src, skipped(ws_skip(src, p), kw.len()), what).0 == Ok::<
            Seq<u8>,
            crate::error::ErrorKind,
        >(v),
        scan_assignment(src, skipped(ws_skip(src, p), kw.len()), what).1.byte_offset
            == p.byte_offset + kw.len() + v.len() + 4,
{
    let o = p.byte_offset as int;
    let k = kw.len() as int;
    let p1 = bumped(src, p);
    assert(src[o + 1 + 0] == kw[0]);
    assert(ws_skip(src, p1) == p1);
    assert(ws_skip(src, p) == p1);
    lemma_starts_at(src, o + 1, kw);
    let eq = seq![0x3Du8, q];
    assert(src[o + 1 + k + 0] == eq[0]);
    assert(src[o + 1 + k + 1] == eq[1]);
    lemma_ascii_char(src, o + 1 + k);
    assert(src[o + 3 + k + v.len() + 0] == seq![q][0]);
    lemma_assignment_exact(src, skipped(p1, k as nat), q, v, what);
}

proof fn lemma_xmldecl_tail(src: Seq<u8>, p: Position, q: u8, version: Seq<u8>, encoding: Seq<u8>)
    requires
        src.len() <= usize::MAX,
        pseudo_attribute_at(src, p.byte_offset as int, kw_encoding(), q, encoding),
        plain_quoted(q, encoding),
        holds_at(src, p.byte_offset + 12 + encoding.len(), seq![0x3Fu8, 0x3Eu8]),
    ensures
        xmldecl_rest(src, version, None, None, p).0 == Ok::<SpecToken, crate::error::ErrorKind>(
            SpecToken::XmlDecl(SpecXmlDecl { version, encoding: Some(encoding), standalone: None }),
        ),
        xmldecl_rest(src, version, None, None, p).1.byte_offset == p.byte_offset + encoding.len()
            + 14,
{
    let o = p.byte_offset as int;
    let ke = kw_encoding();
    assert(src[o + 1 + 0] == ke[0]);
    lemma_pseudo_attribute(src, p, ke, q, encoding, "encoding"@);
    let p6 = scan_assignment(src, skipped(ws_skip(src, p), 8), "encoding"@).1;
    let close = seq![0x3Fu8, 0x3Eu8];
    assert(src[o + 12 + encoding.len() + 0] == close[0]);
    assert(src[o + 12 + encoding.len() + 1] == close[1]);
    assert(ws_skip(src, p6) == p6);
    let d = SpecXmlDecl { version, encoding: Some(encoding), standalone: None };
    assert(xmldecl_rest(src, version, Some(encoding), None, p6) == (
        Ok::<SpecToken, crate::error::ErrorKind>(SpecToken::XmlDecl(d)),
        bumped(src, bumped(src, p6)),
    ));
    let p1 = ws_skip(src, p);
    assert(cur(src, p1) != Some(0x3Fu8));
    assert(xmldecl_rest(src, version, None, None, p) == xmldecl_rest(
        src,
        version,
        Some(encoding),
        None,
        p6,
    ));
}

#[verifier::rlimit(60)]
proof fn lemma_xmldecl_standalone_tail(
    src: Seq<u8>,
    p: Position,
    q: u8,
    version: Seq<u8>,
    encoding: Option<Seq<u8>>,
    yes: bool,
)
    requires
        src.len() <= usize::MAX,
        q == 0x22u8 || q == 0x27u8,
        pseudo_attribute_at(
            src,
            p.byte_offset as int,
            kw_standalone(),
            q,
            if yes { text_yes() } else { text_no() },
        ),
        holds_at(
            src,
            p.byte_offset + 14 + (if yes { 3int } else { 2int }),
            seq![0x3Fu8, 0x3Eu8],
        ),
    ensures
        xmldecl_rest(src, version, encoding, None, p).0 == Ok::<
            SpecToken,
            crate::error::ErrorKind,
        >(SpecToken::XmlDecl(SpecXmlDecl { version, encoding, standalone: Some(yes) })),
        xmldecl_rest(src, version, encoding, None, p).1.byte_offset == p.byte_offset + 16 + (if yes {
            3int
        } else {
            2int
        }),
{
    let o = p.byte_offset as int;
    let ks = kw_standalone();
    let v = if yes {
        text_yes()
    } else {
        text_no()
    };
    assert(src[o + 1 + 0] == ks[0]);
    assert(plain_quoted(q, v));
    lemma_pseudo_attribute(src, p, ks, q, v, "standalone"@);
    let p6 = scan_assignment(src, skipped(ws_skip(src, p), 10), "standalone"@).1;
    let close = seq![0x3Fu8, 0x3Eu8];
    assert(src[o + 14 + v.len() + 0] == close[0]);
    assert(src[o + 14 + v.len() + 1] == close[1]);
    assert(ws_skip(src, p6) == p6);
    let d = SpecXmlDecl { version, encoding, standalone: Some(yes) };
    assert(xmldecl_rest(src, version, encoding, Some(yes), p6) == (
        Ok::<SpecToken, crate::error::ErrorKind>(SpecToken::XmlDecl(d)),
        bumped(src, bumped(src, p6)),
    ));
    let p1 = ws_skip(src, p);
    assert(cur(src, p1) != Some(0x3Fu8));
    assert(!keyword_at(src, p1.byte_offset as int, kw_encoding())) by {
        let t = src.subrange(p1.byte_offset as int, src.len() as int).subrange(0, 8);
        assert(t[1] == src[o + 1 + 1]);
        assert(ks[1] != kw_encoding()[1]);
    }
    assert(v == text_yes() || v == text_no());
    assert(xmldecl_rest(src, version, encoding, None, p) == xmldecl_rest(
        src,
        version,
        encoding,
        Some(yes),
        p6,
    ));
}

/// An XML declaration `<?xml version=qVq standalone=qSq?>`, where `V` holds
/// no `q`, no `<` and no `&` and `S` is `yes` or `no`, is read as the
/// declaration of version `V`, no encoding, and standalone as `S` says;
/// reading ends just after its `?>`.
#[verifier::rlimit(60)]
pub proof fn law_standalone_is_read(src: Seq<u8>, p: Position, q: u8, version: Seq<u8>, yes: bool)
    requires
        src.len() <= usize::MAX,
        holds_at(src, p.byte_offset as int, seq![0x3Cu8, 0x3Fu8, 0x78u8, 0x6Du8, 0x6Cu8]),
        pseudo_attribute_at(src, p.byte_offset + 5, kw_version(), q, version),
        pseudo_attribute_at(
            src,
            p.byte_offset + 16 + version.len(),
            kw_standalone(),
            q,
            if yes { text_yes() } else { text_no() },
        ),
        holds_at(
            src,
            p.byte_offset + 30 + version.len() + (if yes { 3int } else { 2int }),
            seq![0x3Fu8, 0x3Eu8],
        ),
        plain_quoted(q, version),
    ensures
        next_token(src, p).0 == Ok::<Option<SpecToken>, crate::error::ErrorKind>(
            Some(
                SpecToken::XmlDecl(SpecXmlDecl { version, encoding: None, standalone: Some(yes) }),
            ),
        ),
        next_token(src, p).1.byte_offset == p.byte_offset + version.len() + 32 + (if yes {
            3int
        } else {
            2int
        }),
{
    let o = p.byte_offset as int;
    let open = seq![0x3Cu8, 0x3Fu8, 0x78u8, 0x6Du8, 0x6Cu8];
    assert(src[o + 0] == open[0]);
    assert(src[o + 1] == open[1]);
    let p2 = bumped(src, bumped(src, p));
    let xml = seq![0x78u8, 0x6Du8, 0x6Cu8];
    assert forall|j: int| 0 <= j < 3 implies #[trigger] src[p2.byte_offset + j] == xml[j] by {
        assert(src[o + (2 + j)] == open[2 + j]);
    }
    lemma_scan_name_exact(src, p2, xml);
    let p3 = scan_name(src, p2).1;
    let kv = kw_version();
    assert(src[o + 6 + 0] == kv[0]);
    lemma_pseudo_attribute(src, p3, kv, q, version, "version"@);
    let p5 = scan_assignment(src, skipped(ws_skip(src, p3), 7), "version"@).1;
    lemma_xmldecl_standalone_tail(src, p5, q, version, None, yes);
    assert(is_xml_target(xml));
    assert(scan_open_construct(src, p) == scan_pi_or_decl(src, p2));
}

/// An XML declaration `<?xml version=qVq encoding=qEq?>`, whose values hold
/// no `q`, no `<` and no `&`, is read as the declaration of version `V` and
/// encoding `E`, with no standalone, and reading ends just after its `?>`.
pub proof fn law_xml_declaration_is_read_whole(
    src: Seq<u8>,
    p: Position,
    q: u8,
    version: Seq<u8>,
    encoding: Seq<u8>,
)
    requires
        src.len() <= usize::MAX,
        holds_at(src, p.byte_offset as int, seq![0x3Cu8, 0x3Fu8, 0x78u8, 0x6Du8, 0x6Cu8]),
        pseudo_attribute_at(src, p.byte_offset + 5, kw_version(), q, version),
        pseudo_attribute_at(src, p.byte_offset + 16 + version.len(), kw_encoding(), q, encoding),
        holds_at(src, p.byte_offset + 28 + version.len() + encoding.len(), seq![0x3Fu8, 0x3Eu8]),
        plain_quoted(q, version),
        plain_quoted(q, encoding),
    ensures
        next_token(src, p).0 == Ok::<Option<SpecToken>, crate::error::ErrorKind>(
            Some(
                SpecToken::XmlDecl(
                    SpecXmlDecl { version, encoding: Some(encoding), standalone: None },
                ),
            ),
        ),
        next_token(src, p).1.byte_offset == p.byte_offset + version.len() + encoding.len() + 30,
{
    let o = p.byte_offset as int;
    let open = seq![0x3Cu8, 0x3Fu8, 0x78u8, 0x6Du8, 0x6Cu8];
    assert(src[o + 0] == open[0]);
    assert(src[o + 1] == open[1]);
    let p2 = bumped(src, bumped(src, p));
    let xml = seq![0x78u8, 0x6Du8, 0x6Cu8];
    assert forall|j: int| 0 <= j < 3 implies #[trigger] src[p2.byte_offset + j] == xml[j] by {
        assert(src[o + (2 + j)] == open[2 + j]);
    }
    lemma_scan_name_exact(src, p2, xml);
    let p3 = scan_name(src, p2).1;
    let kv = kw_version();
    assert(src[o + 6 + 0] == kv[0]);
    lemma_pseudo_attribute(src, p3, kv, q, version, "version"@);
    let p5 = scan_assignment(src, skipped(ws_skip(src, p3), 7), "version"@).1;
    lemma_xmldecl_tail(src, p5, q, version, encoding);
    assert(is_xml_target(xml));
    assert(scan_open_construct(src, p) == scan_pi_or_decl(src, p2));
}

/// No `?>` in the bytes.
pub open spec fn no_pi_close(b: Seq<u8>) -> bool {
    forall|i: int| 0 <= i && i + 1 < b.len() ==> !(b[i] == 0x3Fu8 && #[trigger] b[i + 1] == 0x3Eu8)
}

proof fn lemma_pi_rest_exact(src: Seq<u8>, start: int, b: Seq<u8>, p: Position)
    requires
        src.len() <= usize::MAX,
        0 <= start <= p.byte_offset <= start + b.len(),
        holds_at(src, start, b),
        holds_at(src, start + b.len(), seq![0x3Fu8, 0x3Eu8]),
        no_pi_close(b),
    ensures
        pi_rest(src, start, p).0 == Ok::<Seq<u8>, crate::error::ErrorKind>(b),
        pi_rest(src, start, p).1.byte_offset == start + b.len() + 2,
    decreases start + b.len() - p.byte_offset,
{
    let k = p.byte_offset - start;
    assert(src[start + b.len() + 0] == seq![0x3Fu8, 0x3Eu8][0]);
    assert(src[start + b.len() + 1] == seq![0x3Fu8, 0x3Eu8][1]);
    if k < b.len() {
        assert(src[start + k] == b[k]);
        if k + 1 < b.len() {
            assert(src[start + (k + 1)] == b[k + 1]);
        }
        lemma_pi_rest_exact(src, start, b, bumped(src, p));
    } else {
        assert forall|j: int| 0 <= j < b.len() implies src.subrange(start, start + b.len())[j]
            == b[j] by {
            assert(src[start + j] == b[j]);
        }
        assert(src.subrange(start, start + b.len()) =~= b);
    }
}

/// A processing instruction `<?t b?>` whose target `t` is an ASCII Name
/// other than `xml` (in any case), and whose body `b` holds no `?>` and
/// does not start with white space, is read as the instruction `t` with
/// body `b`; reading ends just after its `?>`.
pub proof fn law_processing_instruction_is_read_whole(
    src: Seq<u8>,
    p: Position,
    t: Seq<u8>,
    b: Seq<u8>,
)
    requires
        src.len() <= usize::MAX,
        ascii_name(t),
        !is_xml_target(t),
        holds_at(src, p.byte_offset as int, seq![0x3Cu8, 0x3Fu8]),
        holds_at(src, p.byte_offset + 2, t),
        holds_at(src, p.byte_offset + 2 + t.len(), seq![0x20u8]),
        holds_at(src, p.byte_offset + 3 + t.len(), b),
        holds_at(src, p.byte_offset + 3 + t.len() + b.len(), seq![0x3Fu8, 0x3Eu8]),
        no_pi_close(b),
        b.len() > 0 ==> !is_xml_ws(b[0]),
    ensures
        next_token(src, p).0 == Ok::<Option<SpecToken>, crate::error::ErrorKind>(
            Some(SpecToken::ProcessingInstruction { target: t, body: b }),
        ),
        next_token(src, p).1.byte_offset == p.byte_offset + t.len() + b.len() + 5,
{
    let o = p.byte_offset as int;
    let n = t.len() as int;
    assert(src[o + 0] == seq![0x3Cu8, 0x3Fu8][0]);
    assert(src[o + 1] == seq![0x3Cu8, 0x3Fu8][1]);
    assert(src[o + 2 + n + 0] == seq![0x20u8][0]);
    let p2 = bumped(src, bumped(src, p));
    assert forall|j: int| 0 <= j < n implies #[trigger] src[p2.byte_offset + j] == t[j] by {
        assert(src[o + 2 + j] == t[j]);
    }
    lemma_scan_name_exact(src, p2, t);
    let p3 = scan_name(src, p2).1;
    let pb = bumped(src, p3);
    if b.len() > 0 {
        assert(src[o + 3 + n + 0] == b[0]);
    } else {
        assert(src[o + 3 + n + 0] == seq![0x3Fu8, 0x3Eu8][0]);
    }
    assert(ws_skip(src, pb) == pb);
    assert(ws_skip(src, p3) == pb);
    lemma_pi_rest_exact(src, o + 3 + n, b, pb);
    assert(scan_open_construct(src, p) == scan_pi_or_decl(src, p2));
}

proof fn lemma_digits_rest_exact(src: Seq<u8>, p: Position, end: int)
    requires
        src.len() <= usize::MAX,
        p.byte_offset <= end < src.len(),
        forall|j: int| p.byte_offset <= j < end ==> is_hex_digit(#[trigger] src[j]),
        src[end] == 0x3Bu8,
    ensures
        digits_rest(src, p).0 == Ok::<(), crate::error::ErrorKind>(()),
        digits_rest(src, p).1.byte_offset == end,
    decreases end - p.byte_offset,
{
    if p.byte_offset < end {
        assert(is_hex_digit(src[p.byte_offset as int]));
        lemma_digits_rest_exact(src, bumped(src, p), end);
    }
}

/// A character reference `&#d;` or `&#xd;` whose digits `d` (ASCII
/// hexadecimal digits) spell, in base ten or sixteen as the `x` says, a
/// Unicode scalar value is read as that character, and reading ends just
/// after its `;`.
pub proof fn law_char_ref_is_its_number(src: Seq<u8>, p: Position, hex: bool, d: Seq<u8>)
    requires
        src.len() <= usize::MAX,
        holds_at(src, p.byte_offset as int, seq![0x26u8, 0x23u8]),
        hex ==> holds_at(src, p.byte_offset + 2, seq![0x78u8]),
        holds_at(src, p.byte_offset + (if hex { 3int } else { 2int }), d),
        holds_at(src, p.byte_offset + (if hex { 3int } else { 2int }) + d.len(), seq![0x3Bu8]),
        forall|j: int| 0 <= j < d.len() ==> is_hex_digit(#[trigger] d[j]),
        parse_radix(d, if hex { 16int } else { 10int }) matches Some(n) && is_scalar(n),
    ensures
        next_token(src, p).0 == Ok::<Option<SpecToken>, crate::error::ErrorKind>(
            Some(
                SpecToken::CharRef(
                    parse_radix(d, if hex { 16int } else { 10int }).unwrap() as char,
                ),
            ),
        ),
        next_token(src, p).1.byte_offset == p.byte_offset + (if hex { 3int } else { 2int })
            + d.len() + 1,
{
    let o = p.byte_offset as int;
    let start = o + (if hex { 3int } else { 2int });
    assert(src[o + 0] == seq![0x26u8, 0x23u8][0]);
    assert(src[o + 1] == seq![0x26u8, 0x23u8][1]);
    assert(src[start + d.len() + 0] == seq![0x3Bu8][0]);
    if hex {
        assert(src[o + 2 + 0] == seq![0x78u8][0]);
    } else if d.len() > 0 {
        assert(src[start + 0] == d[0]);
    } else {
        assert(parse_radix(d, 10) is None);
    }
    let p2 = bumped(src, bumped(src, p));
    let p3 = if hex {
        bumped(src, p2)
    } else {
        p2
    };
    assert(p3.byte_offset == start);
    assert forall|j: int| start <= j < start + d.len() implies is_hex_digit(#[trigger] src[j]) by {
        assert(src[start + (j - start)] == d[j - start]);
    }
    lemma_digits_rest_exact(src, p3, start + d.len());
    assert(src.subrange(start, start + d.len()) =~= d) by {
        assert forall|j: int| 0 <= j < d.len() implies src.subrange(start, start + d.len())[j]
            == d[j] by {
            assert(src[start + j] == d[j]);
        }
    }
}

proof fn lemma_word_end_exact(s: Seq<u8>, i: int, k: int)
    requires
        0 <= i <= k < s.len(),
        forall|j: int| i <= j < k ==> !is_xml_ws(#[trigger] s[j]) && s[j] != 0x3Eu8,
        is_xml_ws(s[k]),
    ensures
        word_end(s, i) == k,
    decreases k - i,
{
    if i < k {
        lemma_word_end_exact(s, i + 1, k);
    }
}

proof fn lemma_quote_end_exact(s: Seq<u8>, i: int, k: int, q: u8)
    requires
        0 <= i <= k < s.len(),
        forall|j: int| i <= j < k ==> #[trigger] s[j] != q,
        s[k] == q,
    ensures
        quote_end(s, i, q) == k,
    decreases k - i,
{
    if i < k {
        lemma_quote_end_exact(s, i + 1, k, q);
    }
}

/// The bytes of the entity declaration `<!ENTITY name qvq>`.
pub open spec fn entity_declaration(name: Seq<u8>, q: u8, v: Seq<u8>) -> Seq<u8> {
    entity_keyword() + seq![0x20u8] + name + seq![0x20u8, q] + v + seq![q, 0x3Eu8]
}

/// A name that an entity declaration can give: non-empty UTF-8, not a
/// parameter entity's `%`, with no white space and no `>`.
pub open spec fn declarable_name(name: Seq<u8>) -> bool {
    &&& name.len() > 0
    &&& valid_utf8(name)
    &&& name[0] != 0x25u8
    &&& forall|j: int| 0 <= j < name.len() ==> !is_xml_ws(#[trigger] name[j]) && name[j] != 0x3Eu8
}

/// Declarations are read in order: where an entity declaration
/// `<!ENTITY name qvq>` stands at byte `i` of the internal subset, and `v`
/// holds no `q`, reading from `i` declares `name` with exactly the text `v`
/// (the other quote character included) on top of what was declared before,
/// and goes on just after the declaration's `>`.
pub proof fn law_entity_declarations_are_read_in_order(
    s: Seq<u8>,
    i: int,
    m: Map<Seq<char>, Seq<char>>,
    name: Seq<u8>,
    q: u8,
    v: Seq<u8>,
)
    requires
        q == 0x22u8 || q == 0x27u8,
        declarable_name(name),
        valid_utf8(v),
        forall|j: int| 0 <= j < v.len() ==> #[trigger] v[j] != q,
        holds_at(s, i, entity_declaration(name, q, v)),
    ensures
        subset_declarations(s, i, m) == subset_declarations(
            s,
            i + entity_declaration(name, q, v).len(),
            m.insert(decode_utf8(name), decode_utf8(v)),
        ),
{
    let d = entity_declaration(name, q, v);
    let n = name.len() as int;
    let lv = v.len() as int;
    assert(d.len() == 13 + n + lv);
    assert forall|j: int| 0 <= j < n implies #[trigger] s[i + 9 + j] == name[j] by {
        assert(s[i + (9 + j)] == d[9 + j]);
    }
    assert forall|j: int| 0 <= j < lv implies #[trigger] s[i + 11 + n + j] == v[j] by {
        assert(s[i + (11 + n + j)] == d[11 + n + j]);
    }
    assert(s[i + 8] == d[8]);
    assert(s[i + (9 + n)] == d[9 + n]);
    assert(s[i + (10 + n)] == d[10 + n]);
    assert(s[i + (11 + n + lv)] == d[11 + n + lv]);
    assert(s[i + (12 + n + lv)] == d[12 + n + lv]);
    assert forall|j: int| 0 <= j < 8 implies s.subrange(i, s.len() as int).subrange(0, 8)[j]
        == entity_keyword()[j] by {
        assert(s[i + j] == d[j]);
    }
    assert(s.subrange(i, s.len() as int).subrange(0, 8) =~= entity_keyword());
    assert(s[i + 9 + 0] == name[0]);
    assert(ws_end(s, i + 9) == i + 9);
    assert(ws_end(s, i + 8) == i + 9);
    assert forall|j: int| i + 9 <= j < i + 9 + n implies !is_xml_ws(#[trigger] s[j]) && s[j]
        != 0x3Eu8 by {
        assert(s[i + 9 + (j - i - 9)] == name[j - i - 9]);
    }
    lemma_word_end_exact(s, i + 9, i + 9 + n);
    assert(s.subrange(i + 9, i + 9 + n) =~= name) by {
        assert forall|j: int| 0 <= j < n implies s.subrange(i + 9, i + 9 + n)[j] == name[j] by {
            assert(s[i + 9 + j] == name[j]);
        }
    }
    assert(ws_end(s, i + 10 + n) == i + 10 + n);
    assert(ws_end(s, i + 9 + n) == i + 10 + n);
    assert forall|j: int| i + 11 + n <= j < i + 11 + n + lv implies #[trigger] s[j] != q by {
        assert(s[i + 11 + n + (j - i - 11 - n)] == v[j - i - 11 - n]);
    }
    lemma_quote_end_exact(s, i + 11 + n, i + 11 + n + lv, q);
    assert(s.subrange(i + 11 + n, i + 11 + n + lv) =~= v) by {
        assert forall|j: int| 0 <= j < lv implies s.subrange(i + 11 + n, i + 11 + n + lv)[j]
            == v[j] by {
            assert(s[i + 11 + n + j] == v[j]);
        }
    }
    lemma_find_byte(s, i + 12 + n + lv, 0x3Eu8);
    assert(decl_end(s, i + 12 + n + lv) == Some(i + 13 + n + lv));
}

/// An entity declaration `<!ENTITY name qvq>` declares `name` with exactly
/// the text `v` between its quotes, the other quote character included,
/// when `v` holds no `q`; and the declarations read before stay as they
/// were, but for `name`.
pub proof fn law_entity_value_is_the_quoted_text(
    m: Map<Seq<char>, Seq<char>>,
    name: Seq<u8>,
    q: u8,
    v: Seq<u8>,
)
    requires
        q == 0x22u8 || q == 0x27u8,
        declarable_name(name),
        valid_utf8(v),
        forall|j: int| 0 <= j < v.len() ==> #[trigger] v[j] != q,
    ensures
        subset_declarations(entity_declaration(name, q, v), 0, m) == m.insert(
            decode_utf8(name),
            decode_utf8(v),
        ),
{
    let d = entity_declaration(name, q, v);
    law_entity_declarations_are_read_in_order(d, 0, m, name, q, v);
}

/// A later declaration of a name replaces an earlier one: where two
/// declarations of `name` follow each other, the second value is the one
/// the table holds.
pub proof fn law_later_declaration_wins(
    m: Map<Seq<char>, Seq<char>>,
    name: Seq<u8>,
    q: u8,
    v1: Seq<u8>,
    v2: Seq<u8>,
)
    requires
        q == 0x22u8 || q == 0x27u8,
        declarable_name(name),
        valid_utf8(v1),
        valid_utf8(v2),
        forall|j: int| 0 <= j < v1.len() ==> #[trigger] v1[j] != q,
        forall|j: int| 0 <= j < v2.len() ==> #[trigger] v2[j] != q,
    ensures
        subset_declarations(
            entity_declaration(name, q, v1) + entity_declaration(name, q, v2),
            0,
            m,
        ) == m.insert(decode_utf8(name), decode_utf8(v2)),
{
    let d1 = entity_declaration(name, q, v1);
    let d2 = entity_declaration(name, q, v2);
    let s = d1 + d2;
    assert forall|j: int| 0 <= j < d1.len() implies #[trigger] s[0 + j] == d1[j] by {}
    assert forall|j: int| 0 <= j < d2.len() implies #[trigger] s[d1.len() + j] == d2[j] by {}
    law_entity_declarations_are_read_in_order(s, 0, m, name, q, v1);
    let m1 = m.insert(decode_utf8(name), decode_utf8(v1));
    law_entity_declarations_are_read_in_order(s, d1.len() as int, m1, name, q, v2);
    assert(m1.insert(decode_utf8(name), decode_utf8(v2)) =~= m.insert(
        decode_utf8(name),
        decode_utf8(v2),
    ));
}

} // verus!
