//! The tokeniser as a function on bytes: which token the input holds at a
//! position, where the next one starts, and which error stops it.
//!
//! Each scanning function takes the input `src` and the current position `p`
//! and gives the outcome together with the position reached. Positions
//! advance byte by byte (a line feed starts a new line), except that a Name
//! advances one column per character, and fixed markup such as `<!--` or a
//! keyword advances by its length.
use vstd::prelude::*;
use vstd::utf8::*;
use crate::entities::is_xml_ws;
use crate::error::{ErrorKind, Position};
use crate::text::{
    char_debug_text, digits_text, is_hex_digit, parse_radix, seq_starts_with, str_debug_text,
    trim_chars,
};
use crate::token::{SpecAttr, SpecToken, SpecXmlDecl};

verus! {

broadcast use vstd::utf8::group_utf8_lib;

/// The longest input the lexer takes: line and column numbers (`u32`) then
/// never overflow.
pub open spec fn input_fits(n: nat) -> bool {
    n < 0xFFFF_FFFF
}

/// A position that can have been reached in `src`: 1-based line and
/// column, no more lines and columns than bytes passed, within the input.
pub open spec fn pos_wf(src: Seq<u8>, p: Position) -> bool {
    &&& 1 <= p.line
    &&& 1 <= p.column
    &&& (p.line - 1) + (p.column - 1) <= p.byte_offset
    &&& p.byte_offset <= src.len()
}

/// The byte `n` places after the position, if the input has one.
pub open spec fn peek(src: Seq<u8>, p: Position, n: int) -> Option<u8> {
    if 0 <= p.byte_offset + n < src.len() {
        Some(src[p.byte_offset + n])
    } else {
        None
    }
}

/// The byte at the position, if any.
pub open spec fn cur(src: Seq<u8>, p: Position) -> Option<u8> {
    peek(src, p, 0)
}

/// One byte further: a line feed starts a new line, any other byte moves
/// one column.
pub open spec fn bumped(src: Seq<u8>, p: Position) -> Position {
    if cur(src, p) == Some(0x0Au8) {
        Position { line: (p.line + 1) as u32, column: 1, byte_offset: (p.byte_offset + 1) as usize }
    } else {
        Position {
            line: p.line,
            column: (p.column + 1) as u32,
            byte_offset: (p.byte_offset + 1) as usize,
        }
    }
}

/// Past `k` bytes of markup that holds no line feed: `k` columns further.
pub open spec fn skipped(p: Position, k: nat) -> Position {
    Position {
        line: p.line,
        column: (p.column + k) as u32,
        byte_offset: (p.byte_offset + k) as usize,
    }
}

/// Past one character of `len` bytes: one column further (a new line for a
/// line feed).
pub open spec fn char_bumped(src: Seq<u8>, p: Position, len: nat) -> Position {
    if len == 1 && cur(src, p) == Some(0x0Au8) {
        Position {
            line: (p.line + 1) as u32,
            column: 1,
            byte_offset: (p.byte_offset + len) as usize,
        }
    } else {
        Position {
            line: p.line,
            column: (p.column + 1) as u32,
            byte_offset: (p.byte_offset + len) as usize,
        }
    }
}

/// True when the bytes from offset `at` on start with `prefix`.
pub open spec fn starts_at(src: Seq<u8>, at: int, prefix: Seq<u8>) -> bool {
    0 <= at <= src.len() && seq_starts_with(src.subrange(at, src.len() as int), prefix)
}

// ---------------------------------------------------------------------------
// Characters and names (section 2.3)
// ---------------------------------------------------------------------------

/// NameStartChar (production 4), by code point.
pub open spec fn name_start_code(u: u32) -> bool {
    ||| u == 0x3A
    ||| u == 0x5F
    ||| 0x41 <= u <= 0x5A
    ||| 0x61 <= u <= 0x7A
    ||| 0xC0 <= u <= 0xD6
    ||| 0xD8 <= u <= 0xF6
    ||| 0xF8 <= u <= 0x2FF
    ||| 0x370 <= u <= 0x37D
    ||| 0x37F <= u <= 0x1FFF
    ||| 0x200C <= u <= 0x200D
    ||| 0x2070 <= u <= 0x218F
    ||| 0x2C00 <= u <= 0x2FEF
    ||| 0x3001 <= u <= 0xD7FF
    ||| 0xF900 <= u <= 0xFDCF
    ||| 0xFDF0 <= u <= 0xFFFD
    ||| 0x10000 <= u <= 0xEFFFF
}

/// NameChar (production 4a), by code point.
pub open spec fn name_code(u: u32) -> bool {
    ||| name_start_code(u)
    ||| u == 0x2D
    ||| u == 0x2E
    ||| 0x30 <= u <= 0x39
    ||| u == 0xB7
    ||| 0x300 <= u <= 0x36F
    ||| 0x203F <= u <= 0x2040
}

/// The length of the UTF-8 encoding that a leading byte announces, or 0
/// for a byte that cannot start a character.
pub open spec fn lead_width(b: u8) -> nat {
    if b < 0x80 {
        1
    } else if 0xC0 <= b <= 0xDF {
        2
    } else if 0xE0 <= b <= 0xEF {
        3
    } else if 0xF0 <= b <= 0xF7 {
        4
    } else {
        0
    }
}

/// The character that starts at offset `off` and its length in bytes: the
/// bytes its leading byte announces, when they are all there and form one
/// valid UTF-8 character.
pub open spec fn current_char(src: Seq<u8>, off: int) -> Option<(char, nat)> {
    if off < 0 || off >= src.len() {
        None
    } else {
        let w = lead_width(src[off]);
        if w == 0 || off + w > src.len() {
            None
        } else {
            let chunk = src.subrange(off, off + w);
            if valid_utf8(chunk) {
                Some((decode_utf8(chunk)[0], w))
            } else {
                None
            }
        }
    }
}

/// A character found at `off` is one to four bytes long and lies within the
/// input.
pub proof fn lemma_current_char(src: Seq<u8>, off: int)
    ensures
        current_char(src, off) matches Some((c, l)) ==> 1 <= l <= 4 && off + l <= src.len(),
{
}

/// The rest of a Name: its characters as long as they are NameChars.
pub open spec fn name_rest(src: Seq<u8>, p: Position) -> Position
    decreases src.len() - p.byte_offset,
    when src.len() <= usize::MAX
{
    match current_char(src, p.byte_offset as int) {
        Some((c, l)) => if name_code(c as u32) {
            proof {
                lemma_current_char(src, p.byte_offset as int);
            }
            name_rest(src, char_bumped(src, p, l))
        } else {
            p
        },
        None => p,
    }
}

/// A Name (production 5).
pub open spec fn scan_name(src: Seq<u8>, p: Position) -> (Result<Seq<u8>, ErrorKind>, Position) {
    match current_char(src, p.byte_offset as int) {
        Some((c, l)) => if name_start_code(c as u32) {
            let q = name_rest(src, char_bumped(src, p, l));
            (Ok(src.subrange(p.byte_offset as int, q.byte_offset as int)), q)
        } else {
            (Err(ErrorKind::InvalidChar(p, c)), p)
        },
        None => (Err(ErrorKind::UnexpectedEof(p, "Name"@)), p),
    }
}

// ---------------------------------------------------------------------------
// White space and delimited bodies
// ---------------------------------------------------------------------------

/// Past any white space (production 3).
pub open spec fn ws_skip(src: Seq<u8>, p: Position) -> Position
    decreases src.len() - p.byte_offset,
    when src.len() <= usize::MAX
{
    if p.byte_offset < src.len() && is_xml_ws(src[p.byte_offset as int]) {
        ws_skip(src, bumped(src, p))
    } else {
        p
    }
}

/// The rest of a quoted attribute value that began at `start`: up to the
/// closing quote `q`; `<` is not allowed, and `&` must start a reference
/// (production 10).
pub open spec fn attr_value_rest(src: Seq<u8>, start: int, q: u8, p: Position) -> (
    Result<Seq<u8>, ErrorKind>,
    Position,
)
    decreases src.len() - p.byte_offset,
    when src.len() <= usize::MAX
{
    match cur(src, p) {
        Some(c) => if c == q {
            (Ok(src.subrange(start, p.byte_offset as int)), bumped(src, p))
        } else if c == 0x3Cu8 {
            (Err(ErrorKind::NotWellFormed(p, "'<' not allowed in attribute value"@)), p)
        } else if c == 0x26u8 {
            let (r, p2) = scan_reference(src, p);
            match r {
                Err(_) => (
                    Err(ErrorKind::NotWellFormed(p, "'&' in attribute value does not start a reference"@)),
                    p,
                ),
                Ok(_) => {
                    proof {
                        lemma_scan_reference(src, p);
                    }
                    attr_value_rest(src, start, q, p2)
                },
            }
        } else {
            attr_value_rest(src, start, q, bumped(src, p))
        },
        None => (Err(ErrorKind::UnexpectedEof(p, "AttValue"@)), p),
    }
}

/// An attribute value in single or double quotes; the text between the
/// quotes, entity references left as they are.
pub open spec fn scan_attr_value(src: Seq<u8>, p: Position) -> (Result<Seq<u8>, ErrorKind>, Position) {
    match cur(src, p) {
        Some(q) => if q == 0x22u8 || q == 0x27u8 {
            let p1 = bumped(src, p);
            attr_value_rest(src, p1.byte_offset as int, q, p1)
        } else {
            (Err(ErrorKind::NotWellFormed(
                p,
                "expected quote to start attribute value, got "@ + char_debug_text(q as char),
            )), p)
        },
        None => (Err(ErrorKind::UnexpectedEof(p, "AttValue"@)), p),
    }
}

/// Three bytes further.
pub open spec fn bumped3(src: Seq<u8>, p: Position) -> Position {
    bumped(src, bumped(src, bumped(src, p)))
}

/// The rest of a comment body that began at `start`: up to the first `--`,
/// which must be followed by `>` (section 2.5).
pub open spec fn comment_rest(src: Seq<u8>, start: int, p: Position) -> (
    Result<Seq<u8>, ErrorKind>,
    Position,
)
    decreases src.len() - p.byte_offset,
    when src.len() <= usize::MAX
{
    if p.byte_offset >= src.len() {
        (Err(ErrorKind::UnexpectedEof(p, "Comment"@)), p)
    } else if cur(src, p) == Some(0x2Du8) && peek(src, p, 1) == Some(0x2Du8) {
        if peek(src, p, 2) != Some(0x3Eu8) {
            (Err(ErrorKind::NotWellFormed(p, "'--' not allowed within a comment"@)), p)
        } else {
            (Ok(src.subrange(start, p.byte_offset as int)), bumped3(src, p))
        }
    } else {
        comment_rest(src, start, bumped(src, p))
    }
}

/// The rest of a CDATA section that began at `start`: up to the first `]]>`.
pub open spec fn cdata_rest(src: Seq<u8>, start: int, p: Position) -> (
    Result<Seq<u8>, ErrorKind>,
    Position,
)
    decreases src.len() - p.byte_offset,
    when src.len() <= usize::MAX
{
    if p.byte_offset >= src.len() {
        (Err(ErrorKind::UnexpectedEof(p, "CDATA"@)), p)
    } else if cur(src, p) == Some(0x5Du8) && peek(src, p, 1) == Some(0x5Du8) && peek(src, p, 2)
        == Some(0x3Eu8) {
        (Ok(src.subrange(start, p.byte_offset as int)), bumped3(src, p))
    } else {
        cdata_rest(src, start, bumped(src, p))
    }
}

/// The rest of a processing instruction body that began at `start`: up to
/// the first `?>`.
pub open spec fn pi_rest(src: Seq<u8>, start: int, p: Position) -> (
    Result<Seq<u8>, ErrorKind>,
    Position,
)
    decreases src.len() - p.byte_offset,
    when src.len() <= usize::MAX
{
    if p.byte_offset >= src.len() {
        (Err(ErrorKind::UnexpectedEof(p, "PI"@)), p)
    } else if cur(src, p) == Some(0x3Fu8) && peek(src, p, 1) == Some(0x3Eu8) {
        (Ok(src.subrange(start, p.byte_offset as int)), bumped(src, bumped(src, p)))
    } else {
        pi_rest(src, start, bumped(src, p))
    }
}

/// A processing instruction body: white space after the target is skipped.
pub open spec fn scan_pi_body(src: Seq<u8>, p: Position) -> (Result<Seq<u8>, ErrorKind>, Position) {
    let p1 = ws_skip(src, p);
    pi_rest(src, p1.byte_offset as int, p1)
}

// ---------------------------------------------------------------------------
// Character data and references
// ---------------------------------------------------------------------------

/// Character data that began at `start`: up to the next `<` or `&` or the
/// end; `]]>` is not allowed in it (section 2.4).
pub open spec fn text_rest(src: Seq<u8>, start: int, p: Position) -> (
    Result<SpecToken, ErrorKind>,
    Position,
)
    decreases src.len() - p.byte_offset,
    when src.len() <= usize::MAX
{
    match cur(src, p) {
        None => (Ok(SpecToken::Text(src.subrange(start, p.byte_offset as int))), p),
        Some(c) => if c == 0x3Cu8 || c == 0x26u8 {
            (Ok(SpecToken::Text(src.subrange(start, p.byte_offset as int))), p)
        } else if c == 0x5Du8 && peek(src, p, 1) == Some(0x5Du8) && peek(src, p, 2) == Some(
            0x3Eu8,
        ) {
            (Err(ErrorKind::NotWellFormed(p, "']]>' not allowed in character data"@)), p)
        } else {
            text_rest(src, start, bumped(src, p))
        },
    }
}

/// The digits of a character reference: up to `;` or the end; anything
/// that is not an ASCII hexadecimal digit is an error.
pub open spec fn digits_rest(src: Seq<u8>, p: Position) -> (Result<(), ErrorKind>, Position)
    decreases src.len() - p.byte_offset,
    when src.len() <= usize::MAX
{
    match cur(src, p) {
        None => (Ok(()), p),
        Some(c) => if c == 0x3Bu8 {
            (Ok(()), p)
        } else if !is_hex_digit(c) {
            (Err(ErrorKind::NotWellFormed(
                p,
                "invalid character "@ + char_debug_text(c as char) + " in numeric character reference"@,
            )), p)
        } else {
            digits_rest(src, bumped(src, p))
        },
    }
}

/// A character reference after `&#` (production 66): decimal digits, or
/// hexadecimal ones after `x`, then `;`; the number must be a Unicode scalar
/// value.
pub open spec fn scan_char_ref(src: Seq<u8>, p2: Position) -> (Result<SpecToken, ErrorKind>, Position) {
    let hex = cur(src, p2) == Some(0x78u8);
    let radix: int = if hex {
        16
    } else {
        10
    };
    let p3 = if hex {
        bumped(src, p2)
    } else {
        p2
    };
    let (r, p4) = digits_rest(src, p3);
    match r {
        Err(e) => (Err(e), p4),
        Ok(_) => {
            let digits = src.subrange(p3.byte_offset as int, p4.byte_offset as int);
            if cur(src, p4) != Some(0x3Bu8) {
                (Err(ErrorKind::NotWellFormed(p4, "expected ';' to close character reference"@)), p4)
            } else {
                let p5 = bumped(src, p4);
                match parse_radix(digits, radix) {
                    None => (Err(ErrorKind::NotWellFormed(
                        p5,
                        "invalid numeric reference "@ + str_debug_text(decode_utf8(digits)),
                    )), p5),
                    Some(n) => if is_scalar(n) {
                        (Ok(SpecToken::CharRef(n as char)), p5)
                    } else {
                        (Err(ErrorKind::NotWellFormed(
                            p5,
                            "character reference 0x"@ + digits_text(n as nat, 16)
                                + " is not a valid Unicode scalar"@,
                        )), p5)
                    },
                }
            }
        },
    }
}

/// A reference at `&` (section 4.1): a character reference, or an entity
/// reference `&name;`.
pub open spec fn scan_reference(src: Seq<u8>, p: Position) -> (Result<SpecToken, ErrorKind>, Position) {
    let p1 = bumped(src, p);
    if cur(src, p1) == Some(0x23u8) {
        scan_char_ref(src, bumped(src, p1))
    } else {
        let (r, p2) = scan_name(src, p1);
        match r {
            Err(e) => (Err(e), p2),
            Ok(name) => if cur(src, p2) != Some(0x3Bu8) {
                (Err(ErrorKind::NotWellFormed(p2, "expected ';' to close entity reference"@)), p2)
            } else {
                (Ok(SpecToken::EntityRef(name)), bumped(src, p2))
            },
        }
    }
}

// ---------------------------------------------------------------------------
// Tags
// ---------------------------------------------------------------------------

/// An attribute `name = "value"` (production 41) whose name starts at `p`.
pub open spec fn scan_attribute(src: Seq<u8>, p: Position) -> (Result<SpecAttr, ErrorKind>, Position) {
    let (rn, p2) = scan_name(src, p);
    match rn {
        Err(e) => (Err(e), p2),
        Ok(name) => {
            let (rv, p5) = scan_assignment(src, p2, "attribute name"@);
            match rv {
                Err(e) => (Err(e), p5),
                Ok(value) => (Ok(SpecAttr { name, value, pos: p }), p5),
            }
        },
    }
}

/// A NameStartChar starts at `off`.
pub open spec fn starts_name(src: Seq<u8>, off: int) -> bool {
    current_char(src, off) matches Some((c, _)) && name_start_code(c as u32)
}

/// The character at `off` as an error shows it: the one decoded there, or
/// the byte itself when none can be.
pub open spec fn shown_char(src: Seq<u8>, off: int) -> char {
    match current_char(src, off) {
        Some((c, _)) => c,
        None => src[off] as char,
    }
}

/// The attributes and the end of a start tag or empty-element tag named
/// `name`, with `attrs` read so far (productions 40, 41, 44).
pub open spec fn tag_rest(src: Seq<u8>, name: Seq<u8>, attrs: Seq<SpecAttr>, p: Position) -> (
    Result<SpecToken, ErrorKind>,
    Position,
)
    decreases src.len() - p.byte_offset,
    when src.len() <= usize::MAX
{
    let p1 = ws_skip(src, p);
    match cur(src, p1) {
        None => (Err(ErrorKind::UnexpectedEof(p1, "start tag"@)), p1),
        Some(c) => if c == 0x3Eu8 {
            (Ok(SpecToken::StartTag { name, attributes: attrs }), bumped(src, p1))
        } else if c == 0x2Fu8 {
            let p2 = bumped(src, p1);
            if cur(src, p2) != Some(0x3Eu8) {
                (Err(ErrorKind::NotWellFormed(p2, "expected '>' after '/'"@)), p2)
            } else {
                (Ok(SpecToken::EmptyTag { name, attributes: attrs }), bumped(src, p2))
            }
        } else if starts_name(src, p1.byte_offset as int) {
            let (ra, p5) = scan_attribute(src, p1);
            match ra {
                Err(e) => (Err(e), p5),
                Ok(a) => {
                    proof {
                        lemma_ws_skip(src, p);
                        lemma_scan_attribute(src, p1);
                    }
                    tag_rest(src, name, attrs.push(a), p5)
                },
            }
        } else {
            (Err(ErrorKind::NotWellFormed(
                p1,
                "unexpected "@ + char_debug_text(shown_char(src, p1.byte_offset as int))
                    + " in start tag"@,
            )), p1)
        },
    }
}

/// A start tag or empty-element tag at `<`.
pub open spec fn scan_start_or_empty(src: Seq<u8>, p: Position) -> (
    Result<SpecToken, ErrorKind>,
    Position,
) {
    let (r, p2) = scan_name(src, bumped(src, p));
    match r {
        Err(e) => (Err(e), p2),
        Ok(name) => tag_rest(src, name, Seq::empty(), p2),
    }
}

/// An end tag after `</` (production 42).
pub open spec fn scan_end_tag(src: Seq<u8>, p2: Position) -> (Result<SpecToken, ErrorKind>, Position) {
    let (r, p3) = scan_name(src, p2);
    match r {
        Err(e) => (Err(e), p3),
        Ok(name) => {
            let p4 = ws_skip(src, p3);
            if cur(src, p4) != Some(0x3Eu8) {
                (Err(ErrorKind::NotWellFormed(p4, "expected '>' to close end tag"@)), p4)
            } else {
                (Ok(SpecToken::EndTag(name)), bumped(src, p4))
            }
        },
    }
}

// ---------------------------------------------------------------------------
// Declarations
// ---------------------------------------------------------------------------

/// True when the keyword `kw` stands at `off` and is not the start of a
/// longer name.
pub open spec fn keyword_at(src: Seq<u8>, off: int, kw: Seq<u8>) -> bool {
    &&& starts_at(src, off, kw)
    &&& (off + kw.len() >= src.len() || !(current_char(src, off + kw.len()) matches Some((c, _))
        && name_code(c as u32)))
}

pub open spec fn kw_version() -> Seq<u8> {
    seq![0x76u8, 0x65u8, 0x72u8, 0x73u8, 0x69u8, 0x6Fu8, 0x6Eu8]
}

pub open spec fn kw_encoding() -> Seq<u8> {
    seq![0x65u8, 0x6Eu8, 0x63u8, 0x6Fu8, 0x64u8, 0x69u8, 0x6Eu8, 0x67u8]
}

pub open spec fn kw_standalone() -> Seq<u8> {
    seq![0x73u8, 0x74u8, 0x61u8, 0x6Eu8, 0x64u8, 0x61u8, 0x6Cu8, 0x6Fu8, 0x6Eu8, 0x65u8]
}

pub open spec fn text_yes() -> Seq<u8> {
    seq![0x79u8, 0x65u8, 0x73u8]
}

pub open spec fn text_no() -> Seq<u8> {
    seq![0x6Eu8, 0x6Fu8]
}

/// `name = "value"` after a keyword that ends at `p`: the value and where it
/// ends.
pub open spec fn scan_assignment(src: Seq<u8>, p: Position, what: Seq<char>) -> (
    Result<Seq<u8>, ErrorKind>,
    Position,
) {
    let p3 = ws_skip(src, p);
    if cur(src, p3) != Some(0x3Du8) {
        (Err(ErrorKind::NotWellFormed(p3, "expected '=' after "@ + what)), p3)
    } else {
        scan_attr_value(src, ws_skip(src, bumped(src, p3)))
    }
}

/// The pseudo-attributes of an XML declaration after `version`, up to `?>`:
/// `encoding` and `standalone`, in any order (production 23).
pub open spec fn xmldecl_rest(
    src: Seq<u8>,
    version: Seq<u8>,
    encoding: Option<Seq<u8>>,
    standalone: Option<bool>,
    p: Position,
) -> (Result<SpecToken, ErrorKind>, Position)
    decreases src.len() - p.byte_offset,
    when src.len() <= usize::MAX
{
    let p1 = ws_skip(src, p);
    if cur(src, p1) == Some(0x3Fu8) && peek(src, p1, 1) == Some(0x3Eu8) {
        (
            Ok(SpecToken::XmlDecl(SpecXmlDecl { version, encoding, standalone })),
            bumped(src, bumped(src, p1)),
        )
    } else if keyword_at(src, p1.byte_offset as int, kw_encoding()) {
        let (r, p5) = scan_assignment(src, skipped(p1, 8), "encoding"@);
        match r {
            Err(e) => (Err(e), p5),
            Ok(v) => {
                proof {
                    lemma_ws_skip(src, p);
                    lemma_scan_assignment(src, skipped(p1, 8), "encoding"@);
                }
                xmldecl_rest(src, version, Some(v), standalone, p5)
            },
        }
    } else if keyword_at(src, p1.byte_offset as int, kw_standalone()) {
        let (r, p5) = scan_assignment(src, skipped(p1, 10), "standalone"@);
        match r {
            Err(e) => (Err(e), p5),
            Ok(v) => {
                proof {
                    lemma_ws_skip(src, p);
                    lemma_scan_assignment(src, skipped(p1, 10), "standalone"@);
                }
                if v == text_yes() {
                    xmldecl_rest(src, version, encoding, Some(true), p5)
                } else if v == text_no() {
                    xmldecl_rest(src, version, encoding, Some(false), p5)
                } else {
                    (Err(ErrorKind::NotWellFormed(
                        p5,
                        "standalone must be 'yes' or 'no', got "@ + str_debug_text(decode_utf8(v)),
                    )), p5)
                }
            },
        }
    } else {
        (Err(ErrorKind::NotWellFormed(p1, "unexpected token in XML declaration"@)), p1)
    }
}

/// How a missing keyword is named in the error: its text, or `?` when the
/// bytes are not UTF-8.
pub open spec fn keyword_shown(kw: Seq<u8>) -> Seq<char> {
    if valid_utf8(kw) {
        decode_utf8(kw)
    } else {
        "?"@
    }
}

/// An XML declaration after its target `xml`: `version` is required.
pub open spec fn scan_xmldecl(src: Seq<u8>, p: Position) -> (Result<SpecToken, ErrorKind>, Position) {
    let p1 = ws_skip(src, p);
    if !keyword_at(src, p1.byte_offset as int, kw_version()) {
        (Err(ErrorKind::NotWellFormed(
            p1,
            "expected keyword "@ + str_debug_text(keyword_shown(kw_version())),
        )), p1)
    } else {
        let (r, p5) = scan_assignment(src, skipped(p1, 7), "version"@);
        match r {
            Err(e) => (Err(e), p5),
            Ok(version) => xmldecl_rest(src, version, None, None, p5),
        }
    }
}

/// True when the bytes are `xml` in any mix of upper and lower case.
pub open spec fn is_xml_target(b: Seq<u8>) -> bool {
    &&& b.len() == 3
    &&& (b[0] == 0x78u8 || b[0] == 0x58u8)
    &&& (b[1] == 0x6Du8 || b[1] == 0x4Du8)
    &&& (b[2] == 0x6Cu8 || b[2] == 0x4Cu8)
}

/// A processing instruction or XML declaration after `<?`.
pub open spec fn scan_pi_or_decl(src: Seq<u8>, p2: Position) -> (Result<SpecToken, ErrorKind>, Position) {
    let (r, p3) = scan_name(src, p2);
    match r {
        Err(e) => (Err(e), p3),
        Ok(target) => if is_xml_target(target) {
            scan_xmldecl(src, p3)
        } else {
            let (rb, p4) = scan_pi_body(src, p3);
            match rb {
                Err(e) => (Err(e), p4),
                Ok(body) => (Ok(SpecToken::ProcessingInstruction { target, body }), p4),
            }
        },
    }
}

/// The text of a DOCTYPE body: the bytes, trimmed of white space.
pub open spec fn doctype_body(b: Seq<u8>) -> Seq<u8> {
    encode_utf8(trim_chars(decode_utf8(b)))
}

/// The rest of a DOCTYPE declaration whose body began at `body_start`: up to
/// the first `>` outside square brackets (`depth` counts `[` minus `]`).
pub open spec fn doctype_rest(src: Seq<u8>, name: Seq<u8>, body_start: int, depth: int, p: Position) -> (
    Result<SpecToken, ErrorKind>,
    Position,
)
    decreases src.len() - p.byte_offset,
    when src.len() <= usize::MAX
{
    match cur(src, p) {
        None => (Err(ErrorKind::UnexpectedEof(p, "DOCTYPE"@)), p),
        Some(c) => if c == 0x5Bu8 {
            doctype_rest(src, name, body_start, depth + 1, bumped(src, p))
        } else if c == 0x5Du8 {
            doctype_rest(src, name, body_start, depth - 1, bumped(src, p))
        } else if c == 0x3Eu8 && depth == 0 {
            (
                Ok(
                    SpecToken::Doctype {
                        name,
                        body: doctype_body(src.subrange(body_start, p.byte_offset as int)),
                    },
                ),
                bumped(src, p),
            )
        } else {
            doctype_rest(src, name, body_start, depth, bumped(src, p))
        },
    }
}

/// A DOCTYPE declaration at `<!DOCTYPE` (production 28); the internal subset
/// is kept raw in the body.
pub open spec fn scan_doctype(src: Seq<u8>, p: Position) -> (Result<SpecToken, ErrorKind>, Position) {
    let p2 = ws_skip(src, skipped(p, 9));
    let (r, p3) = scan_name(src, p2);
    match r {
        Err(e) => (Err(e), p3),
        Ok(name) => doctype_rest(src, name, p3.byte_offset as int, 0, p3),
    }
}

pub open spec fn kw_comment_open() -> Seq<u8> {
    seq![0x3Cu8, 0x21u8, 0x2Du8, 0x2Du8]
}

pub open spec fn kw_cdata_open() -> Seq<u8> {
    seq![0x3Cu8, 0x21u8, 0x5Bu8, 0x43u8, 0x44u8, 0x41u8, 0x54u8, 0x41u8, 0x5Bu8]
}

pub open spec fn kw_doctype_open() -> Seq<u8> {
    seq![0x3Cu8, 0x21u8, 0x44u8, 0x4Fu8, 0x43u8, 0x54u8, 0x59u8, 0x50u8, 0x45u8]
}

/// Markup at `<!`: a comment, a CDATA section or a DOCTYPE declaration.
pub open spec fn scan_bang(src: Seq<u8>, p: Position) -> (Result<SpecToken, ErrorKind>, Position) {
    let off = p.byte_offset as int;
    if starts_at(src, off, kw_comment_open()) {
        let p1 = skipped(p, 4);
        let (r, q) = comment_rest(src, p1.byte_offset as int, p1);
        match r {
            Err(e) => (Err(e), q),
            Ok(b) => (Ok(SpecToken::Comment(b)), q),
        }
    } else if starts_at(src, off, kw_cdata_open()) {
        let p1 = skipped(p, 9);
        let (r, q) = cdata_rest(src, p1.byte_offset as int, p1);
        match r {
            Err(e) => (Err(e), q),
            Ok(b) => (Ok(SpecToken::CData(b)), q),
        }
    } else if starts_at(src, off, kw_doctype_open()) {
        scan_doctype(src, p)
    } else {
        (Err(ErrorKind::NotWellFormed(p, "unrecognised <! construct"@)), p)
    }
}

/// Markup at `<`, by the byte that follows it.
pub open spec fn scan_open_construct(src: Seq<u8>, p: Position) -> (
    Result<SpecToken, ErrorKind>,
    Position,
) {
    match peek(src, p, 1) {
        None => (Err(ErrorKind::UnexpectedEof(p, "tag"@)), p),
        Some(b) => if b == 0x2Fu8 {
            scan_end_tag(src, bumped(src, bumped(src, p)))
        } else if b == 0x21u8 {
            scan_bang(src, p)
        } else if b == 0x3Fu8 {
            scan_pi_or_decl(src, bumped(src, bumped(src, p)))
        } else {
            scan_start_or_empty(src, p)
        },
    }
}

/// The next token of `src` at `p` (`None` at the end of the input), and the
/// position after it.
pub open spec fn next_token(src: Seq<u8>, p: Position) -> (
    Result<Option<SpecToken>, ErrorKind>,
    Position,
) {
    if p.byte_offset >= src.len() {
        (Ok(None), p)
    } else {
        let (r, q) = if src[p.byte_offset as int] == 0x3Cu8 {
            scan_open_construct(src, p)
        } else if src[p.byte_offset as int] == 0x26u8 {
            scan_reference(src, p)
        } else {
            text_rest(src, p.byte_offset as int, p)
        };
        match r {
            Err(e) => (Err(e), q),
            Ok(t) => (Ok(Some(t)), q),
        }
    }
}

// ---------------------------------------------------------------------------
// How far the scanners move
// ---------------------------------------------------------------------------

pub proof fn lemma_ws_skip(src: Seq<u8>, p: Position)
    requires
        p.byte_offset <= src.len(),
        src.len() <= usize::MAX,
    ensures
        p.byte_offset <= ws_skip(src, p).byte_offset <= src.len(),
    decreases src.len() - p.byte_offset,
{
    if p.byte_offset < src.len() && is_xml_ws(src[p.byte_offset as int]) {
        lemma_ws_skip(src, bumped(src, p));
    }
}

pub proof fn lemma_name_rest(src: Seq<u8>, p: Position)
    requires
        p.byte_offset <= src.len(),
        src.len() <= usize::MAX,
    ensures
        p.byte_offset <= name_rest(src, p).byte_offset <= src.len(),
    decreases src.len() - p.byte_offset,
{
    lemma_current_char(src, p.byte_offset as int);
    if let Some((c, l)) = current_char(src, p.byte_offset as int) {
        if name_code(c as u32) {
            lemma_name_rest(src, char_bumped(src, p, l));
        }
    }
}

pub proof fn lemma_scan_name(src: Seq<u8>, p: Position)
    requires
        p.byte_offset <= src.len(),
        src.len() <= usize::MAX,
    ensures
        p.byte_offset <= scan_name(src, p).1.byte_offset <= src.len(),
        scan_name(src, p).0 is Ok ==> p.byte_offset < scan_name(src, p).1.byte_offset,
        scan_name(src, p).0 is Err ==> scan_name(src, p).1 == p,
{
    lemma_current_char(src, p.byte_offset as int);
    if let Some((c, l)) = current_char(src, p.byte_offset as int) {
        lemma_name_rest(src, char_bumped(src, p, l));
    }
}

pub proof fn lemma_attr_value_rest(src: Seq<u8>, start: int, q: u8, p: Position)
    requires
        p.byte_offset <= src.len(),
        src.len() <= usize::MAX,
    ensures
        p.byte_offset <= attr_value_rest(src, start, q, p).1.byte_offset <= src.len(),
        attr_value_rest(src, start, q, p).0 is Ok ==> p.byte_offset < attr_value_rest(
            src,
            start,
            q,
            p,
        ).1.byte_offset,
    decreases src.len() - p.byte_offset,
{
    if let Some(c) = cur(src, p) {
        if c != q && c != 0x3Cu8 {
            if c == 0x26u8 {
                lemma_scan_reference(src, p);
                let (r, p2) = scan_reference(src, p);
                if r is Ok {
                    lemma_attr_value_rest(src, start, q, p2);
                }
            } else {
                lemma_attr_value_rest(src, start, q, bumped(src, p));
            }
        }
    }
}

pub proof fn lemma_scan_attr_value(src: Seq<u8>, p: Position)
    requires
        p.byte_offset <= src.len(),
        src.len() <= usize::MAX,
    ensures
        p.byte_offset <= scan_attr_value(src, p).1.byte_offset <= src.len(),
        scan_attr_value(src, p).0 is Ok ==> p.byte_offset < scan_attr_value(src, p).1.byte_offset,
{
    if let Some(q) = cur(src, p) {
        if q == 0x22u8 || q == 0x27u8 {
            let p1 = bumped(src, p);
            lemma_attr_value_rest(src, p1.byte_offset as int, q, p1);
        }
    }
}

pub proof fn lemma_scan_assignment(src: Seq<u8>, p: Position, what: Seq<char>)
    requires
        p.byte_offset <= src.len(),
        src.len() <= usize::MAX,
    ensures
        p.byte_offset <= scan_assignment(src, p, what).1.byte_offset <= src.len(),
        scan_assignment(src, p, what).0 is Ok ==> p.byte_offset < scan_assignment(src, p, what).1.byte_offset,
{
    let p3 = ws_skip(src, p);
    lemma_ws_skip(src, p);
    if cur(src, p3) == Some(0x3Du8) {
        lemma_ws_skip(src, bumped(src, p3));
        lemma_scan_attr_value(src, ws_skip(src, bumped(src, p3)));
    }
}


pub proof fn lemma_scan_attribute(src: Seq<u8>, p: Position)
    requires
        p.byte_offset <= src.len(),
        src.len() <= usize::MAX,
    ensures
        p.byte_offset <= scan_attribute(src, p).1.byte_offset <= src.len(),
        scan_attribute(src, p).0 is Ok ==> p.byte_offset < scan_attribute(src, p).1.byte_offset,
{
    lemma_scan_name(src, p);
    lemma_scan_assignment(src, scan_name(src, p).1, "attribute name"@);
}

pub proof fn lemma_comment_rest(src: Seq<u8>, start: int, p: Position)
    requires
        p.byte_offset <= src.len(),
        src.len() <= usize::MAX,
    ensures
        p.byte_offset <= comment_rest(src, start, p).1.byte_offset <= src.len(),
    decreases src.len() - p.byte_offset,
{
    if p.byte_offset < src.len() {
        if !(cur(src, p) == Some(0x2Du8) && peek(src, p, 1) == Some(0x2Du8)) {
            lemma_comment_rest(src, start, bumped(src, p));
        }
    }
}

pub proof fn lemma_cdata_rest(src: Seq<u8>, start: int, p: Position)
    requires
        p.byte_offset <= src.len(),
        src.len() <= usize::MAX,
    ensures
        p.byte_offset <= cdata_rest(src, start, p).1.byte_offset <= src.len(),
    decreases src.len() - p.byte_offset,
{
    if p.byte_offset < src.len() {
        if !(cur(src, p) == Some(0x5Du8) && peek(src, p, 1) == Some(0x5Du8) && peek(src, p, 2)
            == Some(0x3Eu8)) {
            lemma_cdata_rest(src, start, bumped(src, p));
        }
    }
}

pub proof fn lemma_pi_rest(src: Seq<u8>, start: int, p: Position)
    requires
        p.byte_offset <= src.len(),
        src.len() <= usize::MAX,
    ensures
        p.byte_offset <= pi_rest(src, start, p).1.byte_offset <= src.len(),
    decreases src.len() - p.byte_offset,
{
    if p.byte_offset < src.len() {
        if !(cur(src, p) == Some(0x3Fu8) && peek(src, p, 1) == Some(0x3Eu8)) {
            lemma_pi_rest(src, start, bumped(src, p));
        }
    }
}

pub proof fn lemma_text_rest(src: Seq<u8>, start: int, p: Position)
    requires
        p.byte_offset <= src.len(),
        src.len() <= usize::MAX,
    ensures
        p.byte_offset <= text_rest(src, start, p).1.byte_offset <= src.len(),
    decreases src.len() - p.byte_offset,
{
    if let Some(c) = cur(src, p) {
        if !(c == 0x3Cu8 || c == 0x26u8) && !(c == 0x5Du8 && peek(src, p, 1) == Some(0x5Du8)
            && peek(src, p, 2) == Some(0x3Eu8)) {
            lemma_text_rest(src, start, bumped(src, p));
        }
    }
}

pub proof fn lemma_digits_rest(src: Seq<u8>, p: Position)
    requires
        p.byte_offset <= src.len(),
        src.len() <= usize::MAX,
    ensures
        p.byte_offset <= digits_rest(src, p).1.byte_offset <= src.len(),
    decreases src.len() - p.byte_offset,
{
    if let Some(c) = cur(src, p) {
        if c != 0x3Bu8 && is_hex_digit(c) {
            lemma_digits_rest(src, bumped(src, p));
        }
    }
}

pub proof fn lemma_tag_rest(src: Seq<u8>, name: Seq<u8>, attrs: Seq<SpecAttr>, p: Position)
    requires
        p.byte_offset <= src.len(),
        src.len() <= usize::MAX,
    ensures
        p.byte_offset <= tag_rest(src, name, attrs, p).1.byte_offset <= src.len(),
        tag_rest(src, name, attrs, p).0 is Ok ==> p.byte_offset < tag_rest(
            src,
            name,
            attrs,
            p,
        ).1.byte_offset,
    decreases src.len() - p.byte_offset,
{
    lemma_ws_skip(src, p);
    let p1 = ws_skip(src, p);
    if let Some(c) = cur(src, p1) {
        if c == 0x3Eu8 {
        } else if c == 0x2Fu8 {
        } else if starts_name(src, p1.byte_offset as int) {
            lemma_scan_attribute(src, p1);
            let (ra, p5) = scan_attribute(src, p1);
            if let Ok(a) = ra {
                lemma_tag_rest(src, name, attrs.push(a), p5);
            }
        }
    }
}

#[verifier::rlimit(40)]
pub proof fn lemma_xmldecl_rest(
    src: Seq<u8>,
    version: Seq<u8>,
    encoding: Option<Seq<u8>>,
    standalone: Option<bool>,
    p: Position,
)
    requires
        p.byte_offset <= src.len(),
        src.len() <= usize::MAX,
    ensures
        p.byte_offset <= xmldecl_rest(src, version, encoding, standalone, p).1.byte_offset
            <= src.len(),
        xmldecl_rest(src, version, encoding, standalone, p).0 is Ok ==> p.byte_offset
            < xmldecl_rest(src, version, encoding, standalone, p).1.byte_offset,
    decreases src.len() - p.byte_offset,
{
    lemma_ws_skip(src, p);
    let p1 = ws_skip(src, p);
    if cur(src, p1) == Some(0x3Fu8) && peek(src, p1, 1) == Some(0x3Eu8) {
    } else if keyword_at(src, p1.byte_offset as int, kw_encoding()) {
        lemma_scan_assignment(src, skipped(p1, 8), "encoding"@);
        let (r, p5) = scan_assignment(src, skipped(p1, 8), "encoding"@);
        if let Ok(v) = r {
            lemma_xmldecl_rest(src, version, Some(v), standalone, p5);
        }
    } else if keyword_at(src, p1.byte_offset as int, kw_standalone()) {
        lemma_scan_assignment(src, skipped(p1, 10), "standalone"@);
        let (r, p5) = scan_assignment(src, skipped(p1, 10), "standalone"@);
        if let Ok(v) = r {
            lemma_xmldecl_rest(src, version, encoding, Some(true), p5);
            lemma_xmldecl_rest(src, version, encoding, Some(false), p5);
        }
    }
}

pub proof fn lemma_doctype_rest(src: Seq<u8>, name: Seq<u8>, body_start: int, depth: int, p: Position)
    requires
        p.byte_offset <= src.len(),
        src.len() <= usize::MAX,
    ensures
        p.byte_offset <= doctype_rest(src, name, body_start, depth, p).1.byte_offset <= src.len(),
        doctype_rest(src, name, body_start, depth, p).0 is Ok ==> p.byte_offset < doctype_rest(
            src,
            name,
            body_start,
            depth,
            p,
        ).1.byte_offset,
    decreases src.len() - p.byte_offset,
{
    if let Some(c) = cur(src, p) {
        if c == 0x5Bu8 {
            lemma_doctype_rest(src, name, body_start, depth + 1, bumped(src, p));
        } else if c == 0x5Du8 {
            lemma_doctype_rest(src, name, body_start, depth - 1, bumped(src, p));
        } else if c == 0x3Eu8 && depth == 0 {
        } else {
            lemma_doctype_rest(src, name, body_start, depth, bumped(src, p));
        }
    }
}

pub proof fn lemma_scan_end_tag(src: Seq<u8>, p2: Position)
    requires
        p2.byte_offset <= src.len(),
        src.len() <= usize::MAX,
    ensures
        p2.byte_offset <= scan_end_tag(src, p2).1.byte_offset <= src.len(),
        scan_end_tag(src, p2).0 is Ok ==> p2.byte_offset < scan_end_tag(src, p2).1.byte_offset,
{
    lemma_scan_name(src, p2);
    lemma_ws_skip(src, scan_name(src, p2).1);
}

pub proof fn lemma_scan_doctype(src: Seq<u8>, p: Position)
    requires
        starts_at(src, p.byte_offset as int, kw_doctype_open()),
        src.len() <= usize::MAX,
    ensures
        p.byte_offset <= scan_doctype(src, p).1.byte_offset <= src.len(),
        scan_doctype(src, p).0 is Ok ==> p.byte_offset < scan_doctype(src, p).1.byte_offset,
{
    let p2 = ws_skip(src, skipped(p, 9));
    lemma_ws_skip(src, skipped(p, 9));
    lemma_scan_name(src, p2);
    let (r, p3) = scan_name(src, p2);
    if let Ok(name) = r {
        lemma_doctype_rest(src, name, p3.byte_offset as int, 0, p3);
    }
}

pub proof fn lemma_scan_bang(src: Seq<u8>, p: Position)
    requires
        p.byte_offset <= src.len(),
        src.len() <= usize::MAX,
    ensures
        p.byte_offset <= scan_bang(src, p).1.byte_offset <= src.len(),
        scan_bang(src, p).0 is Ok ==> p.byte_offset < scan_bang(src, p).1.byte_offset,
{
    let off = p.byte_offset as int;
    if starts_at(src, off, kw_comment_open()) {
        let p1 = skipped(p, 4);
        lemma_comment_rest(src, p1.byte_offset as int, p1);
    } else if starts_at(src, off, kw_cdata_open()) {
        let p1 = skipped(p, 9);
        lemma_cdata_rest(src, p1.byte_offset as int, p1);
    } else if starts_at(src, off, kw_doctype_open()) {
        lemma_scan_doctype(src, p);
    }
}

pub proof fn lemma_scan_xmldecl(src: Seq<u8>, p: Position)
    requires
        p.byte_offset <= src.len(),
        src.len() <= usize::MAX,
    ensures
        p.byte_offset <= scan_xmldecl(src, p).1.byte_offset <= src.len(),
        scan_xmldecl(src, p).0 is Ok ==> p.byte_offset < scan_xmldecl(src, p).1.byte_offset,
{
    lemma_ws_skip(src, p);
    let p1 = ws_skip(src, p);
    if keyword_at(src, p1.byte_offset as int, kw_version()) {
        lemma_scan_assignment(src, skipped(p1, 7), "version"@);
        let (rv, p5) = scan_assignment(src, skipped(p1, 7), "version"@);
        if let Ok(version) = rv {
            lemma_xmldecl_rest(src, version, None, None, p5);
        }
    }
}

pub proof fn lemma_scan_pi_or_decl(src: Seq<u8>, p2: Position)
    requires
        p2.byte_offset <= src.len(),
        src.len() <= usize::MAX,
    ensures
        p2.byte_offset <= scan_pi_or_decl(src, p2).1.byte_offset <= src.len(),
        scan_pi_or_decl(src, p2).0 is Ok ==> p2.byte_offset < scan_pi_or_decl(src, p2).1.byte_offset,
{
    lemma_scan_name(src, p2);
    let (r, p3) = scan_name(src, p2);
    if let Ok(target) = r {
        if is_xml_target(target) {
            lemma_scan_xmldecl(src, p3);
        } else {
            lemma_ws_skip(src, p3);
            let p1 = ws_skip(src, p3);
            lemma_pi_rest(src, p1.byte_offset as int, p1);
        }
    }
}

pub proof fn lemma_scan_open_construct(src: Seq<u8>, p: Position)
    requires
        p.byte_offset < src.len(),
        src.len() <= usize::MAX,
    ensures
        p.byte_offset <= scan_open_construct(src, p).1.byte_offset <= src.len(),
        scan_open_construct(src, p).0 is Ok ==> p.byte_offset < scan_open_construct(src, p).1.byte_offset,
{
    match peek(src, p, 1) {
        None => {},
        Some(b) => {
            if b == 0x2Fu8 {
                lemma_scan_end_tag(src, bumped(src, bumped(src, p)));
            } else if b == 0x21u8 {
                lemma_scan_bang(src, p);
            } else if b == 0x3Fu8 {
                lemma_scan_pi_or_decl(src, bumped(src, bumped(src, p)));
            } else {
                let p1 = bumped(src, p);
                lemma_scan_name(src, p1);
                let (r, p2) = scan_name(src, p1);
                if let Ok(name) = r {
                    lemma_tag_rest(src, name, Seq::empty(), p2);
                }
            }
        },
    }
}

pub proof fn lemma_scan_reference(src: Seq<u8>, p: Position)
    requires
        p.byte_offset < src.len(),
        src.len() <= usize::MAX,
    ensures
        p.byte_offset <= scan_reference(src, p).1.byte_offset <= src.len(),
        scan_reference(src, p).0 is Ok ==> p.byte_offset < scan_reference(src, p).1.byte_offset,
{
    let p1 = bumped(src, p);
    if cur(src, p1) == Some(0x23u8) {
        let p2 = bumped(src, p1);
        let p3 = if cur(src, p2) == Some(0x78u8) {
            bumped(src, p2)
        } else {
            p2
        };
        lemma_digits_rest(src, p3);
    } else {
        lemma_scan_name(src, p1);
    }
}

/// The lexer never moves backwards, never past the end of the input, and
/// every token it hands out consumes at least one byte. So a loop that asks
/// for tokens until the end or an error terminates.
pub proof fn lemma_next_token_progress(src: Seq<u8>, p: Position)
    requires
        p.byte_offset <= src.len(),
        src.len() <= usize::MAX,
    ensures
        p.byte_offset <= next_token(src, p).1.byte_offset <= src.len(),
        next_token(src, p).0 matches Ok(Some(_)) ==> p.byte_offset < next_token(src, p).1.byte_offset,
        next_token(src, p).0 matches Ok(None) <==> p.byte_offset >= src.len(),
{
    if p.byte_offset < src.len() {
        let off = p.byte_offset as int;
        if src[off] == 0x3Cu8 {
            lemma_scan_open_construct(src, p);
        } else if src[off] == 0x26u8 {
            lemma_scan_reference(src, p);
        } else {
            let p1 = bumped(src, p);
            lemma_text_rest(src, off, p1);
        }
    }
}

} // verus!
