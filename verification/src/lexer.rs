//! XML 1.0 tokeniser.
//!
//! Stream style: borrows the input and hands out one token at a time. Every
//! string a token carries is a slice of the input; the attribute list is the
//! only allocation. Each scanner is proved to do what the function of the
//! same name in `grammar` says.
use vstd::prelude::*;
use vstd::slice::slice_subrange;
use vstd::string::*;
use vstd::utf8::*;
use crate::boundary::{
    law_next_token_stops_at_boundary, lemma_cdata_rest_utf8, lemma_comment_rest_utf8,
    lemma_name_rest_utf8, lemma_scan_assignment_utf8, lemma_scan_attr_value_utf8,
    lemma_scan_attribute_utf8, lemma_scan_char_ref_utf8, lemma_scan_doctype_utf8,
    lemma_scan_name_utf8, lemma_scan_open_construct_utf8, lemma_scan_pi_body_utf8,
    lemma_scan_reference_utf8, lemma_scan_start_or_empty_utf8, lemma_scan_xmldecl_utf8,
    lemma_text_rest_utf8, lemma_utf8_from_ascii_run, lemma_utf8_from_ascii_step,
    lemma_utf8_from_char, lemma_utf8_from_end, lemma_utf8_from_lead, lemma_utf8_from_skip,
    lemma_utf8_from_start, lemma_utf8_slice, lemma_ws_skip_utf8, utf8_from,
};
use crate::error::{ErrorKind, Position, XmlError};
use crate::grammar::{
    attr_value_rest, bumped, cdata_rest, char_bumped, comment_rest, cur, current_char,
    digits_rest, doctype_rest, input_fits, is_xml_target, keyword_at, keyword_shown, kw_cdata_open,
    kw_comment_open, kw_doctype_open, kw_encoding, kw_standalone, kw_version, lemma_current_char,
    lemma_ws_skip, name_code, name_rest, name_start_code, next_token, peek, pi_rest, pos_wf,
    scan_assignment, scan_attr_value, scan_attribute, scan_char_ref, scan_doctype, scan_name,
    scan_open_construct, scan_pi_body, scan_reference, scan_start_or_empty, scan_xmldecl, skipped,
    starts_at, tag_rest, text_no, text_rest, text_yes, ws_skip, xmldecl_rest,
};
use crate::text::{
    char_debug_text, char_from_u32, debug_char, debug_str, is_hex_digit,
    number_text, starts_with_at, str_debug_text, str_from_utf8, str_trim, u32_from_str_radix,
};
use crate::token::{attrs_view, Attr, SpecAttr, SpecToken, Token, XmlDecl};

verus! {

/// The lexer: the input's bytes and the current position.
pub struct Lexer<'a> {
    src: &'a [u8],
    pos: Position,
}

/// A scanned string agrees with what the grammar says: the same bytes, or
/// an error of the same kind at the same position.
pub open spec fn str_outcome<'a>(res: Result<&'a str, XmlError>, s: Result<Seq<u8>, ErrorKind>) -> bool {
    match (res, s) {
        (Ok(t), Ok(b)) => t.spec_bytes() == b,
        (Err(e), Err(k)) => e.kind() == k,
        _ => false,
    }
}

/// A scanned token agrees with what the grammar says.
pub open spec fn token_outcome<'a>(res: Result<Token<'a>, XmlError>, s: Result<SpecToken, ErrorKind>) -> bool {
    match (res, s) {
        (Ok(t), Ok(st)) => t@ == st,
        (Err(e), Err(k)) => e.kind() == k,
        _ => false,
    }
}

/// The result of `next_token` agrees with what the grammar says.
pub open spec fn next_outcome<'a>(
    res: Result<Option<Token<'a>>, XmlError>,
    s: Result<Option<SpecToken>, ErrorKind>,
) -> bool {
    match (res, s) {
        (Ok(None), Ok(None)) => true,
        (Ok(Some(t)), Ok(Some(st))) => t@ == st,
        (Err(e), Err(k)) => e.kind() == k,
        _ => false,
    }
}

/// A not-well-formed error at `pos` with a fixed reason.
pub(crate) fn not_well_formed(pos: Position, reason: &str) -> (e: XmlError)
    ensures
        e.kind() == ErrorKind::NotWellFormed(pos, reason@),
{
    XmlError::NotWellFormed { pos, reason: String::from_str(reason) }
}

/// A not-well-formed error at `pos` whose reason is `head`, the `{:?}` text
/// of a character, then `tail`.
fn not_well_formed_char(pos: Position, head: &str, c: char, tail: &str) -> (e: XmlError)
    ensures
        e.kind() == ErrorKind::NotWellFormed(pos, head@ + char_debug_text(c) + tail@),
{
    let mut reason = String::from_str(head);
    reason.append(debug_char(c).as_str());
    reason.append(tail);
    XmlError::NotWellFormed { pos, reason }
}

/// A not-well-formed error at `pos` whose reason is `head`, the `{:?}` text
/// of a string, then `tail`.
pub(crate) fn not_well_formed_str(pos: Position, head: &str, s: &str, tail: &str) -> (e: XmlError)
    ensures
        e.kind() == ErrorKind::NotWellFormed(pos, head@ + str_debug_text(s@) + tail@),
{
    let mut reason = String::from_str(head);
    reason.append(debug_str(s).as_str());
    reason.append(tail);
    XmlError::NotWellFormed { pos, reason }
}

/// A not-well-formed error at `pos` whose reason is `head` then the `{:?}`
/// text of a character.
fn not_well_formed_char_end(pos: Position, head: &str, c: char) -> (e: XmlError)
    ensures
        e.kind() == ErrorKind::NotWellFormed(pos, head@ + char_debug_text(c)),
{
    let mut reason = String::from_str(head);
    reason.append(debug_char(c).as_str());
    XmlError::NotWellFormed { pos, reason }
}

/// A not-well-formed error at `pos` whose reason is `head` then the `{:?}`
/// text of a string.
pub(crate) fn not_well_formed_str_end(pos: Position, head: &str, s: &str) -> (e: XmlError)
    ensures
        e.kind() == ErrorKind::NotWellFormed(pos, head@ + str_debug_text(s@)),
{
    let mut reason = String::from_str(head);
    reason.append(debug_str(s).as_str());
    XmlError::NotWellFormed { pos, reason }
}

/// How a bump keeps a position well formed.
proof fn lemma_bumped_wf(src: Seq<u8>, p: Position)
    requires
        input_fits(src.len()),
        pos_wf(src, p),
        p.byte_offset < src.len(),
    ensures
        pos_wf(src, bumped(src, p)),
        bumped(src, p).byte_offset == p.byte_offset + 1,
{
}

impl<'a> Lexer<'a> {
    /// The input's bytes.
    pub closed spec fn source(&self) -> Seq<u8> {
        self.src@
    }

    /// The current position.
    pub closed spec fn position(&self) -> Position {
        self.pos
    }

    /// The input fits and the position is one that scanning can reach.
    pub closed spec fn wf(&self) -> bool {
        input_fits(self.src@.len()) && pos_wf(self.src@, self.pos)
    }

    /// The lexer rests at a character boundary of its input, as it does
    /// between tokens.
    pub closed spec fn at_boundary(&self) -> bool {
        utf8_from(self.src@, self.pos.byte_offset as int)
    }

    /// The current position.
    pub fn current_position(&self) -> (p: Position)
        ensures
            p == self.position(),
    {
        self.pos
    }

    /// What a well-formed lexer guarantees of its input and position.
    pub proof fn lemma_wf(&self)
        requires
            self.wf(),
        ensures
            input_fits(self.source().len()),
            pos_wf(self.source(), self.position()),
    {
    }

    /// A lexer at the start of `src`.
    pub fn new(src: &'a str) -> (l: Self)
        requires
            input_fits(src.spec_bytes().len()),
        ensures
            l.wf(),
            l.at_boundary(),
            l.source() == src.spec_bytes(),
            l.position() == crate::error::start_position(),
    {
        proof {
            encode_utf8_valid_utf8(src@);
            lemma_utf8_from_start(src.spec_bytes());
        }
        Self { src: src.as_bytes(), pos: Position::start() }
    }

    /// Advance past one byte, updating line and column.
    fn bump(&mut self)
        requires
            old(self).wf(),
            old(self).pos.byte_offset < old(self).src@.len(),
        ensures
            final(self).src == old(self).src,
            final(self).pos == bumped(old(self).src@, old(self).pos),
            final(self).wf(),
    {
        proof {
            lemma_bumped_wf(self.src@, self.pos);
        }
        let b = self.src[self.pos.byte_offset];
        self.pos.byte_offset += 1;
        if b == 0x0A {
            self.pos.line += 1;
            self.pos.column = 1;
        } else {
            self.pos.column += 1;
        }
    }

    /// The byte `n` places ahead, if any.
    fn peek(&self, n: usize) -> (r: Option<u8>)
        requires
            self.wf(),
            n <= 8,
        ensures
            r == peek(self.src@, self.pos, n as int),
    {
        if n < self.src.len() - self.pos.byte_offset {
            Some(self.src[self.pos.byte_offset + n])
        } else {
            None
        }
    }

    /// True at the end of the input.
    fn is_eof(&self) -> (r: bool)
        requires
            self.wf(),
        ensures
            r == (self.pos.byte_offset >= self.src@.len()),
    {
        self.pos.byte_offset >= self.src.len()
    }

    /// The byte at the current position, if any.
    fn current(&self) -> (r: Option<u8>)
        requires
            self.wf(),
        ensures
            r == cur(self.src@, self.pos),
    {
        self.peek(0)
    }

    /// Skip white space (production 3).
    fn skip_whitespace(&mut self)
        requires
            old(self).wf(),
        ensures
            final(self).src == old(self).src,
            final(self).pos == ws_skip(old(self).src@, old(self).pos),
            final(self).wf(),
            old(self).at_boundary() ==> final(self).at_boundary(),
    {
        proof {
            if self.at_boundary() {
                lemma_ws_skip_utf8(self.src@, self.pos);
            }
        }
        let ghost p0 = self.pos;
        loop
            invariant_except_break
                self.wf(),
                self.src == old(self).src,
                ws_skip(self.src@, p0) == ws_skip(self.src@, self.pos),
            ensures
                self.wf(),
                self.src == old(self).src,
                ws_skip(self.src@, p0) == self.pos,
            decreases self.src@.len() - self.pos.byte_offset,
        {
            match self.current() {
                Some(c) => {
                    if c == 0x20 || c == 0x09 || c == 0x0D || c == 0x0A {
                        self.bump();
                    } else {
                        break;
                    }
                },
                None => {
                    break;
                },
            }
        }
    }

    /// The slice from `start` to the current position.
    fn slice(&self, start: usize) -> (s: &'a str)
        requires
            self.wf(),
            start <= self.pos.byte_offset,
            valid_utf8(self.src@.subrange(start as int, self.pos.byte_offset as int)),
        ensures
            s.spec_bytes() == self.src@.subrange(start as int, self.pos.byte_offset as int),
    {
        // The range lies between character boundaries, so it is never empty
        // for want of valid UTF-8.
        match str_from_utf8(slice_subrange(self.src, start, self.pos.byte_offset)) {
            Some(s) => s,
            None => "",
        }
    }

    /// NameStartChar (production 4), over the full Unicode ranges.
    pub(crate) fn is_name_start_char(c: char) -> (r: bool)
        ensures
            r == name_start_code(c as u32),
    {
        let u = c as u32;
        u == 0x3A || u == 0x5F || (0x41 <= u && u <= 0x5A) || (0x61 <= u && u <= 0x7A) || (0xC0
            <= u && u <= 0xD6) || (0xD8 <= u && u <= 0xF6) || (0xF8 <= u && u <= 0x2FF) || (0x370
            <= u && u <= 0x37D) || (0x37F <= u && u <= 0x1FFF) || (0x200C <= u && u <= 0x200D) || (
        0x2070 <= u && u <= 0x218F) || (0x2C00 <= u && u <= 0x2FEF) || (0x3001 <= u && u <= 0xD7FF)
            || (0xF900 <= u && u <= 0xFDCF) || (0xFDF0 <= u && u <= 0xFFFD) || (0x10000 <= u && u
            <= 0xEFFFF)
    }

    /// NameChar (production 4a): a NameStartChar, `-`, `.`, a digit, U+00B7,
    /// U+0300 to U+036F, or U+203F to U+2040.
    pub(crate) fn is_name_char(c: char) -> (r: bool)
        ensures
            r == name_code(c as u32),
    {
        let u = c as u32;
        Self::is_name_start_char(c) || u == 0x2D || u == 0x2E || (0x30 <= u && u <= 0x39) || u
            == 0xB7 || (0x300 <= u && u <= 0x36F) || (0x203F <= u && u <= 0x2040)
    }

    /// The character at the current position and its length in bytes.
    fn current_char(&self) -> (r: Option<(char, usize)>)
        requires
            self.wf(),
        ensures
            r == (match current_char(self.src@, self.pos.byte_offset as int) {
                Some((c, l)) => Some((c, l as usize)),
                None => None::<(char, usize)>,
            }),
    {
        self.char_at(self.pos.byte_offset)
    }

    /// The character that starts at byte `off` and its length in bytes: the
    /// bytes its leading byte announces, decoded whole.
    fn char_at(&self, off: usize) -> (r: Option<(char, usize)>)
        requires
            self.wf(),
        ensures
            r == (match current_char(self.src@, off as int) {
                Some((c, l)) => Some((c, l as usize)),
                None => None::<(char, usize)>,
            }),
    {
        let n = self.src.len();
        if off >= n {
            return None;
        }
        let b = self.src[off];
        let w: usize = if b < 0x80 {
            1
        } else if 0xC0 <= b && b <= 0xDF {
            2
        } else if 0xE0 <= b && b <= 0xEF {
            3
        } else if 0xF0 <= b && b <= 0xF7 {
            4
        } else {
            return None;
        };
        if w > n - off {
            return None;
        }
        let chunk = slice_subrange(self.src, off, off + w);
        match str_from_utf8(chunk) {
            Some(s) => {
                broadcast use vstd::string::group_string_axioms;

                proof {
                    encode_utf8_decode_utf8(s@);
                    if s@.len() == 0 {
                        assert(encode_utf8(s@) =~= Seq::<u8>::empty());
                    }
                }
                let mut it = s.chars();
                match it.next() {
                    Some(c) => Some((c, w)),
                    None => None,
                }
            },
            None => None,
        }
    }

    /// Advance past one character of `byte_len` bytes.
    fn bump_char(&mut self, byte_len: usize)
        requires
            old(self).wf(),
            1 <= byte_len,
            old(self).pos.byte_offset + byte_len <= old(self).src@.len(),
        ensures
            final(self).src == old(self).src,
            final(self).pos == char_bumped(old(self).src@, old(self).pos, byte_len as nat),
            final(self).wf(),
    {
        let is_newline = byte_len == 1 && self.src[self.pos.byte_offset] == 0x0A;
        self.pos.byte_offset += byte_len;
        if is_newline {
            self.pos.line += 1;
            self.pos.column = 1;
        } else {
            self.pos.column += 1;
        }
    }

    /// A Name (production 5), with the full Unicode NameStartChar and
    /// NameChar ranges.
    fn scan_name(&mut self) -> (res: Result<&'a str, XmlError>)
        requires
            old(self).wf(),
            old(self).at_boundary(),
        ensures
            final(self).src == old(self).src,
            final(self).wf(),
            final(self).at_boundary(),
            str_outcome(res, scan_name(old(self).src@, old(self).pos).0),
            final(self).pos == scan_name(old(self).src@, old(self).pos).1,
    {
        let start = self.pos.byte_offset;
        proof {
            lemma_current_char(self.src@, start as int);
            lemma_utf8_from_char(self.src@, start as int);
            lemma_scan_name_utf8(self.src@, self.pos);
        }
        match self.current_char() {
            Some((c, len)) => {
                if Self::is_name_start_char(c) {
                    self.bump_char(len);
                } else {
                    return Err(XmlError::InvalidChar { pos: self.pos, char: c });
                }
            },
            None => {
                return Err(XmlError::UnexpectedEof { pos: self.pos, context: "Name" });
            },
        }
        let ghost p1 = self.pos;
        loop
            invariant_except_break
                self.wf(),
                self.src == old(self).src,
                start <= self.pos.byte_offset,
                name_rest(self.src@, p1) == name_rest(self.src@, self.pos),
            ensures
                self.wf(),
                self.src == old(self).src,
                start <= self.pos.byte_offset,
                name_rest(self.src@, p1) == self.pos,
            decreases self.src@.len() - self.pos.byte_offset,
        {
            proof {
                lemma_current_char(self.src@, self.pos.byte_offset as int);
            }
            match self.current_char() {
                Some((c, len)) => {
                    if Self::is_name_char(c) {
                        self.bump_char(len);
                    } else {
                        break;
                    }
                },
                None => {
                    break;
                },
            }
        }
        proof {
            lemma_name_rest_utf8(self.src@, p1);
            lemma_utf8_slice(self.src@, start as int, self.pos.byte_offset as int);
        }
        Ok(self.slice(start))
    }

    /// An attribute value (production 10): the literal text between the
    /// quotes; entity references are left for the parser.
    fn scan_attr_value(&mut self) -> (res: Result<&'a str, XmlError>)
        requires
            old(self).wf(),
            old(self).at_boundary(),
        ensures
            final(self).src == old(self).src,
            final(self).wf(),
            final(self).at_boundary(),
            str_outcome(res, scan_attr_value(old(self).src@, old(self).pos).0),
            final(self).pos == scan_attr_value(old(self).src@, old(self).pos).1,
    {
        proof {
            lemma_scan_attr_value_utf8(self.src@, self.pos);
        }
        let quote = match self.current() {
            Some(q) => {
                if q == 0x22 || q == 0x27 {
                    q
                } else {
                    return Err(
                        not_well_formed_char_end(
                            self.pos,
                            "expected quote to start attribute value, got ",
                            q as char,
                        ),
                    );
                }
            },
            None => {
                return Err(XmlError::UnexpectedEof { pos: self.pos, context: "AttValue" });
            },
        };
        proof {
            lemma_utf8_from_ascii_step(self.src@, self.pos.byte_offset as int);
        }
        self.bump();
        let start = self.pos.byte_offset;
        let ghost p1 = self.pos;
        loop
            invariant
                utf8_from(old(self).src@, scan_attr_value(old(self).src@, old(self).pos).1.byte_offset as int),
                self.wf(),
                self.src == old(self).src,
                start <= self.pos.byte_offset,
                p1.byte_offset == start,
                quote == 0x22 || quote == 0x27,
                utf8_from(self.src@, start as int),
                scan_attr_value(self.src@, old(self).pos) == attr_value_rest(
                    self.src@,
                    start as int,
                    quote,
                    p1,
                ),
                attr_value_rest(self.src@, start as int, quote, p1) == attr_value_rest(
                    self.src@,
                    start as int,
                    quote,
                    self.pos,
                ),
            decreases self.src@.len() - self.pos.byte_offset,
        {
            match self.current() {
                Some(c) => {
                    if c == quote {
                        proof {
                            lemma_utf8_from_lead(self.src@, start as int, self.pos.byte_offset as int);
                            lemma_utf8_slice(self.src@, start as int, self.pos.byte_offset as int);
                        }
                        let s = self.slice(start);
                        self.bump();
                        return Ok(s);
                    } else if c == 0x3C {
                        return Err(not_well_formed(self.pos, "'<' not allowed in attribute value"));
                    } else if c == 0x26 {
                        // A `&` must start a reference; the reference stays in
                        // the value as it stands.
                        proof {
                            lemma_utf8_from_lead(self.src@, start as int, self.pos.byte_offset as int);
                            crate::grammar::lemma_scan_reference(self.src@, self.pos);
                        }
                        let amp = self.pos;
                        match self.scan_reference() {
                            Ok(_) => {},
                            Err(_) => {
                                self.pos = amp;
                                return Err(
                                    not_well_formed(
                                        amp,
                                        "'&' in attribute value does not start a reference",
                                    ),
                                );
                            },
                        }
                    } else {
                        self.bump();
                    }
                },
                None => {
                    return Err(XmlError::UnexpectedEof { pos: self.pos, context: "AttValue" });
                },
            }
        }
    }

    /// A comment body (production 15); the leading `<!--` is already
    /// consumed. `--` may only appear as part of the closing `-->`.
    fn scan_comment_body(&mut self) -> (res: Result<&'a str, XmlError>)
        requires
            old(self).wf(),
            old(self).at_boundary(),
        ensures
            final(self).src == old(self).src,
            final(self).wf(),
            final(self).at_boundary(),
            str_outcome(
                res,
                comment_rest(old(self).src@, old(self).pos.byte_offset as int, old(self).pos).0,
            ),
            final(self).pos == comment_rest(
                old(self).src@,
                old(self).pos.byte_offset as int,
                old(self).pos,
            ).1,
    {
        let start = self.pos.byte_offset;
        let ghost p0 = self.pos;
        proof {
            lemma_comment_rest_utf8(self.src@, start as int, p0);
        }
        loop
            invariant
                utf8_from(old(self).src@, comment_rest(old(self).src@, old(self).pos.byte_offset as int, old(self).pos).1.byte_offset as int),
                self.wf(),
                utf8_from(self.src@, start as int),
                self.src == old(self).src,
                start <= self.pos.byte_offset,
                p0 == old(self).pos,
                start == p0.byte_offset,
                comment_rest(self.src@, start as int, p0) == comment_rest(
                    self.src@,
                    start as int,
                    self.pos,
                ),
            decreases self.src@.len() - self.pos.byte_offset,
        {
            if self.is_eof() {
                return Err(XmlError::UnexpectedEof { pos: self.pos, context: "Comment" });
            }
            if self.current() == Some(0x2Du8) && self.peek(1) == Some(0x2Du8) {
                proof {
                    lemma_utf8_from_lead(self.src@, start as int, self.pos.byte_offset as int);
                    lemma_utf8_slice(self.src@, start as int, self.pos.byte_offset as int);
                }
                let body = self.slice(start);
                if self.peek(2) != Some(0x3Eu8) {
                    return Err(not_well_formed(self.pos, "'--' not allowed within a comment"));
                }
                self.bump();
                self.bump();
                self.bump();
                return Ok(body);
            }
            self.bump();
        }
    }

    /// A CDATA section body (production 18); the leading `<![CDATA[` is
    /// already consumed.
    fn scan_cdata_body(&mut self) -> (res: Result<&'a str, XmlError>)
        requires
            old(self).wf(),
            old(self).at_boundary(),
        ensures
            final(self).src == old(self).src,
            final(self).wf(),
            final(self).at_boundary(),
            str_outcome(
                res,
                cdata_rest(old(self).src@, old(self).pos.byte_offset as int, old(self).pos).0,
            ),
            final(self).pos == cdata_rest(
                old(self).src@,
                old(self).pos.byte_offset as int,
                old(self).pos,
            ).1,
    {
        let start = self.pos.byte_offset;
        let ghost p0 = self.pos;
        proof {
            lemma_cdata_rest_utf8(self.src@, start as int, p0);
        }
        loop
            invariant
                utf8_from(old(self).src@, cdata_rest(old(self).src@, old(self).pos.byte_offset as int, old(self).pos).1.byte_offset as int),
                self.wf(),
                utf8_from(self.src@, start as int),
                self.src == old(self).src,
                start <= self.pos.byte_offset,
                p0 == old(self).pos,
                start == p0.byte_offset,
                cdata_rest(self.src@, start as int, p0) == cdata_rest(
                    self.src@,
                    start as int,
                    self.pos,
                ),
            decreases self.src@.len() - self.pos.byte_offset,
        {
            if self.is_eof() {
                return Err(XmlError::UnexpectedEof { pos: self.pos, context: "CDATA" });
            }
            if self.current() == Some(0x5Du8) && self.peek(1) == Some(0x5Du8) && self.peek(2) == Some(
                0x3Eu8,
            ) {
                proof {
                    lemma_utf8_from_lead(self.src@, start as int, self.pos.byte_offset as int);
                    lemma_utf8_slice(self.src@, start as int, self.pos.byte_offset as int);
                }
                let body = self.slice(start);
                self.bump();
                self.bump();
                self.bump();
                return Ok(body);
            }
            self.bump();
        }
    }

    /// A processing instruction body (production 16); `<?` and the target
    /// are already consumed. White space after the target is skipped.
    fn scan_pi_body(&mut self) -> (res: Result<&'a str, XmlError>)
        requires
            old(self).wf(),
            old(self).at_boundary(),
        ensures
            final(self).src == old(self).src,
            final(self).wf(),
            final(self).at_boundary(),
            str_outcome(res, scan_pi_body(old(self).src@, old(self).pos).0),
            final(self).pos == scan_pi_body(old(self).src@, old(self).pos).1,
    {
        proof {
            lemma_scan_pi_body_utf8(self.src@, self.pos);
        }
        self.skip_whitespace();
        let start = self.pos.byte_offset;
        let ghost p0 = self.pos;
        loop
            invariant
                utf8_from(old(self).src@, scan_pi_body(old(self).src@, old(self).pos).1.byte_offset as int),
                self.wf(),
                utf8_from(self.src@, start as int),
                self.src == old(self).src,
                start <= self.pos.byte_offset,
                p0 == ws_skip(self.src@, old(self).pos),
                start == p0.byte_offset,
                pi_rest(self.src@, start as int, p0) == pi_rest(self.src@, start as int, self.pos),
            decreases self.src@.len() - self.pos.byte_offset,
        {
            if self.is_eof() {
                return Err(XmlError::UnexpectedEof { pos: self.pos, context: "PI" });
            }
            if self.current() == Some(0x3Fu8) && self.peek(1) == Some(0x3Eu8) {
                proof {
                    lemma_utf8_from_lead(self.src@, start as int, self.pos.byte_offset as int);
                    lemma_utf8_slice(self.src@, start as int, self.pos.byte_offset as int);
                }
                let body = self.slice(start);
                self.bump();
                self.bump();
                return Ok(body);
            }
            self.bump();
        }
    }

    /// Consumes `kw` when it stands at the current position and is not the
    /// start of a longer name.
    fn try_keyword(&mut self, kw: &[u8]) -> (r: bool)
        requires
            old(self).wf(),
        ensures
            final(self).src == old(self).src,
            final(self).wf(),
            r == keyword_at(old(self).src@, old(self).pos.byte_offset as int, kw@),
            r ==> final(self).pos == skipped(old(self).pos, kw@.len()),
            !r ==> final(self).pos == old(self).pos,
    {
        let off = self.pos.byte_offset;
        if starts_with_at(self.src, off, kw) {
            let after = off + kw.len();
            let continues_name = match self.char_at(after) {
                Some((c, _)) => Self::is_name_char(c),
                None => false,
            };
            if after >= self.src.len() || !continues_name {
                self.pos.byte_offset += kw.len();
                self.pos.column += kw.len() as u32;
                return true;
            }
        }
        false
    }

    /// Consumes the keyword `kw`, or reports that it is missing.
    fn expect_keyword(&mut self, kw: &[u8]) -> (res: Result<(), XmlError>)
        requires
            old(self).wf(),
        ensures
            final(self).src == old(self).src,
            final(self).wf(),
            res is Ok == keyword_at(old(self).src@, old(self).pos.byte_offset as int, kw@),
            res is Ok ==> final(self).pos == skipped(old(self).pos, kw@.len()),
            res matches Err(e) ==> final(self).pos == old(self).pos && e.kind()
                == ErrorKind::NotWellFormed(
                old(self).pos,
                "expected keyword "@ + str_debug_text(keyword_shown(kw@)),
            ),
    {
        if self.try_keyword(kw) {
            Ok(())
        } else {
            let shown = match str_from_utf8(kw) {
                Some(s) => {
                    proof {
                        encode_utf8_decode_utf8(s@);
                    }
                    s
                },
                None => "?",
            };
            Err(not_well_formed_str_end(self.pos, "expected keyword ", shown))
        }
    }

    /// `= "value"` after a keyword of the XML declaration.
    fn scan_assignment(&mut self, what: &str) -> (res: Result<&'a str, XmlError>)
        requires
            old(self).wf(),
            old(self).at_boundary(),
        ensures
            final(self).src == old(self).src,
            final(self).wf(),
            final(self).at_boundary(),
            str_outcome(res, scan_assignment(old(self).src@, old(self).pos, what@).0),
            final(self).pos == scan_assignment(old(self).src@, old(self).pos, what@).1,
    {
        proof {
            lemma_scan_assignment_utf8(self.src@, self.pos, what@);
        }
        self.skip_whitespace();
        if self.current() != Some(0x3Du8) {
            let mut reason = String::from_str("expected '=' after ");
            reason.append(what);
            return Err(XmlError::NotWellFormed { pos: self.pos, reason });
        }
        proof {
            lemma_utf8_from_ascii_step(self.src@, self.pos.byte_offset as int);
        }
        self.bump();
        self.skip_whitespace();
        self.scan_attr_value()
    }

    /// An XML declaration (production 23); `<?xml` is already consumed.
    /// `version` is required; `encoding` and `standalone` may follow in any
    /// order.
    #[verifier::rlimit(40)]
    fn scan_xmldecl_after_target(&mut self) -> (res: Result<Token<'a>, XmlError>)
        requires
            old(self).wf(),
            old(self).at_boundary(),
        ensures
            final(self).src == old(self).src,
            final(self).wf(),
            final(self).at_boundary(),
            token_outcome(res, scan_xmldecl(old(self).src@, old(self).pos).0),
            final(self).pos == scan_xmldecl(old(self).src@, old(self).pos).1,
    {
        let kw_v: [u8; 7] = [0x76, 0x65, 0x72, 0x73, 0x69, 0x6F, 0x6E];
        let kw_e: [u8; 8] = [0x65, 0x6E, 0x63, 0x6F, 0x64, 0x69, 0x6E, 0x67];
        let kw_s: [u8; 10] = [0x73, 0x74, 0x61, 0x6E, 0x64, 0x61, 0x6C, 0x6F, 0x6E, 0x65];
        let kv = kw_v.as_slice();
        let ke = kw_e.as_slice();
        let ks = kw_s.as_slice();
        assert(kv@ =~= kw_version());
        assert(ke@ =~= kw_encoding());
        assert(ks@ =~= kw_standalone());
        proof {
            lemma_scan_xmldecl_utf8(self.src@, self.pos);
        }
        self.skip_whitespace();
        let ghost pv = self.pos;
        match self.expect_keyword(kv) {
            Ok(()) => {},
            Err(e) => {
                return Err(e);
            },
        }
        proof {
            lemma_utf8_from_skip(self.src@, pv, kw_version());
        }
        let version = match self.scan_assignment("version") {
            Ok(v) => v,
            Err(e) => {
                return Err(e);
            },
        };
        let mut encoding: Option<&'a str> = None;
        let mut standalone: Option<bool> = None;
        loop
            invariant
                utf8_from(old(self).src@, scan_xmldecl(old(self).src@, old(self).pos).1.byte_offset as int),
                self.wf(),
                self.at_boundary(),
                self.src == old(self).src,
                kv@ == kw_version(),
                ke@ == kw_encoding(),
                ks@ == kw_standalone(),
                scan_xmldecl(self.src@, old(self).pos) == xmldecl_rest(
                    self.src@,
                    version.spec_bytes(),
                    match encoding {
                        Some(e) => Some(e.spec_bytes()),
                        None => None,
                    },
                    standalone,
                    self.pos,
                ),
            decreases self.src@.len() - self.pos.byte_offset,
        {
            let ghost p = self.pos;
            self.skip_whitespace();
            proof {
                lemma_ws_skip(self.src@, p);
            }
            if self.current() == Some(0x3Fu8) && self.peek(1) == Some(0x3Eu8) {
                self.bump();
                self.bump();
                return Ok(Token::XmlDecl(XmlDecl { version, encoding, standalone }));
            }
            let ghost pk = self.pos;
            if self.try_keyword(ke) {
                proof {
                    lemma_utf8_from_skip(self.src@, pk, kw_encoding());
                }
                let ghost q = self.pos;
                let v = match self.scan_assignment("encoding") {
                    Ok(v) => v,
                    Err(e) => {
                        return Err(e);
                    },
                };
                proof {
                    crate::grammar::lemma_scan_assignment(self.src@, q, "encoding"@);
                }
                encoding = Some(v);
            } else if self.try_keyword(ks) {
                proof {
                    lemma_utf8_from_skip(self.src@, pk, kw_standalone());
                }
                let ghost q = self.pos;
                let v = match self.scan_assignment("standalone") {
                    Ok(v) => v,
                    Err(e) => {
                        return Err(e);
                    },
                };
                proof {
                    crate::grammar::lemma_scan_assignment(self.src@, q, "standalone"@);
                }
                let vb = v.as_bytes();
                if vb.len() == 3 && vb[0] == 0x79 && vb[1] == 0x65 && vb[2] == 0x73 {
                    assert(vb@ =~= text_yes());
                    standalone = Some(true);
                } else if vb.len() == 2 && vb[0] == 0x6E && vb[1] == 0x6F {
                    assert(vb@ =~= text_no());
                    standalone = Some(false);
                } else {
                    assert(vb@ != text_yes() && vb@ != text_no()) by {
                        if vb@ == text_yes() {
                            assert(vb@[0] == 0x79);
                        }
                        if vb@ == text_no() {
                            assert(vb@[0] == 0x6E);
                        }
                    }
                    proof {
                        encode_utf8_decode_utf8(v@);
                    }
                    return Err(
                        not_well_formed_str_end(self.pos, "standalone must be 'yes' or 'no', got ", v),
                    );
                }
            } else {
                return Err(not_well_formed(self.pos, "unexpected token in XML declaration"));
            }
        }
    }

    /// A DOCTYPE declaration (production 28) at `<!DOCTYPE`: the name, and the
    /// body up to the matching `>` (square brackets nest), trimmed. The
    /// internal subset is not parsed here.
    fn scan_doctype(&mut self) -> (res: Result<Token<'a>, XmlError>)
        requires
            old(self).wf(),
            old(self).at_boundary(),
            starts_at(old(self).src@, old(self).pos.byte_offset as int, kw_doctype_open()),
        ensures
            final(self).src == old(self).src,
            final(self).wf(),
            final(self).at_boundary(),
            token_outcome(res, scan_doctype(old(self).src@, old(self).pos).0),
            final(self).pos == scan_doctype(old(self).src@, old(self).pos).1,
    {
        proof {
            lemma_scan_doctype_utf8(self.src@, self.pos);
            lemma_utf8_from_skip(self.src@, self.pos, kw_doctype_open());
        }
        self.pos.byte_offset += 9;
        self.pos.column += 9;
        self.skip_whitespace();
        let name = match self.scan_name() {
            Ok(n) => n,
            Err(e) => {
                return Err(e);
            },
        };
        let body_start = self.pos.byte_offset;
        let mut depth: i64 = 0;
        loop
            invariant
                utf8_from(old(self).src@, scan_doctype(old(self).src@, old(self).pos).1.byte_offset as int),
                self.wf(),
                self.src == old(self).src,
                body_start <= self.pos.byte_offset,
                utf8_from(self.src@, body_start as int),
                -(self.pos.byte_offset - body_start) <= depth <= self.pos.byte_offset - body_start,
                scan_doctype(self.src@, old(self).pos) == doctype_rest(
                    self.src@,
                    name.spec_bytes(),
                    body_start as int,
                    depth as int,
                    self.pos,
                ),
            decreases self.src@.len() - self.pos.byte_offset,
        {
            match self.current() {
                None => {
                    return Err(XmlError::UnexpectedEof { pos: self.pos, context: "DOCTYPE" });
                },
                Some(c) => {
                    if c == 0x5B {
                        depth += 1;
                        self.bump();
                    } else if c == 0x5D {
                        depth -= 1;
                        self.bump();
                    } else if c == 0x3E && depth == 0 {
                        proof {
                            lemma_utf8_from_lead(
                                self.src@,
                                body_start as int,
                                self.pos.byte_offset as int,
                            );
                            lemma_utf8_slice(self.src@, body_start as int, self.pos.byte_offset as int);
                        }
                        let raw = self.slice(body_start);
                        let body = str_trim(raw);
                        proof {
                            encode_utf8_decode_utf8(raw@);
                        }
                        self.bump();
                        return Ok(Token::Doctype { name, body });
                    } else {
                        self.bump();
                    }
                },
            }
        }
    }

    /// Character data (production 14) up to the next `<` or `&`; `]]>` may
    /// not occur in it.
    fn scan_text(&mut self) -> (res: Result<Token<'a>, XmlError>)
        requires
            old(self).wf(),
            old(self).at_boundary(),
        ensures
            final(self).src == old(self).src,
            final(self).wf(),
            final(self).at_boundary(),
            token_outcome(
                res,
                text_rest(old(self).src@, old(self).pos.byte_offset as int, old(self).pos).0,
            ),
            final(self).pos == text_rest(
                old(self).src@,
                old(self).pos.byte_offset as int,
                old(self).pos,
            ).1,
    {
        let start = self.pos.byte_offset;
        let ghost p0 = self.pos;
        proof {
            lemma_text_rest_utf8(self.src@, start as int, p0);
        }
        loop
            invariant_except_break
                utf8_from(old(self).src@, text_rest(old(self).src@, old(self).pos.byte_offset as int, old(self).pos).1.byte_offset as int),
                self.wf(),
                self.src == old(self).src,
                utf8_from(self.src@, start as int),
                p0 == old(self).pos,
                start == p0.byte_offset,
                start <= self.pos.byte_offset,
                text_rest(self.src@, start as int, p0) == text_rest(self.src@, start as int, self.pos),
            ensures
                utf8_from(old(self).src@, text_rest(old(self).src@, old(self).pos.byte_offset as int, old(self).pos).1.byte_offset as int),
                self.wf(),
                self.src == old(self).src,
                utf8_from(self.src@, start as int),
                utf8_from(self.src@, self.pos.byte_offset as int),
                p0 == old(self).pos,
                start == p0.byte_offset,
                start <= self.pos.byte_offset,
                text_rest(self.src@, start as int, p0) == (
                    Ok::<SpecToken, ErrorKind>(
                        SpecToken::Text(
                            self.src@.subrange(start as int, self.pos.byte_offset as int),
                        ),
                    ),
                    self.pos,
                ),
            decreases self.src@.len() - self.pos.byte_offset,
        {
            match self.current() {
                None => {
                    proof {
                        lemma_utf8_from_end(self.src@);
                    }
                    break;
                },
                Some(c) => {
                    if c == 0x3C || c == 0x26 {
                        proof {
                            lemma_utf8_from_lead(
                                self.src@,
                                start as int,
                                self.pos.byte_offset as int,
                            );
                        }
                        break;
                    }
                    if c == 0x5D && self.peek(1) == Some(0x5Du8) && self.peek(2) == Some(0x3Eu8) {
                        return Err(not_well_formed(self.pos, "']]>' not allowed in character data"));
                    }
                    self.bump();
                },
            }
        }
        proof {
            lemma_utf8_slice(self.src@, start as int, self.pos.byte_offset as int);
        }
        Ok(Token::Text(self.slice(start)))
    }

    /// A character reference after `&#` (production 66).
    fn scan_char_ref(&mut self) -> (res: Result<Token<'a>, XmlError>)
        requires
            old(self).wf(),
            old(self).at_boundary(),
        ensures
            final(self).src == old(self).src,
            final(self).wf(),
            final(self).at_boundary(),
            token_outcome(res, scan_char_ref(old(self).src@, old(self).pos).0),
            final(self).pos == scan_char_ref(old(self).src@, old(self).pos).1,
    {
        proof {
            lemma_scan_char_ref_utf8(self.src@, self.pos);
        }
        let hex = self.current() == Some(0x78u8);
        let radix: u32 = if hex {
            proof {
                lemma_utf8_from_ascii_step(self.src@, self.pos.byte_offset as int);
            }
            self.bump();
            16
        } else {
            10
        };
        let num_start = self.pos.byte_offset;
        let ghost p3 = self.pos;
        assert(p3 == (if cur(self.src@, old(self).pos) == Some(0x78u8) {
            bumped(self.src@, old(self).pos)
        } else {
            old(self).pos
        }));
        loop
            invariant_except_break
                utf8_from(old(self).src@, scan_char_ref(old(self).src@, old(self).pos).1.byte_offset as int),
                self.wf(),
                self.src == old(self).src,
                p3 == (if cur(self.src@, old(self).pos) == Some(0x78u8) {
                    bumped(self.src@, old(self).pos)
                } else {
                    old(self).pos
                }),
                num_start == p3.byte_offset,
                num_start <= self.pos.byte_offset,
                utf8_from(self.src@, num_start as int),
                utf8_from(self.src@, self.pos.byte_offset as int),
                forall|k: int|
                    num_start <= k < self.pos.byte_offset ==> is_hex_digit(#[trigger] self.src@[k]),
                digits_rest(self.src@, p3) == digits_rest(self.src@, self.pos),
            ensures
                utf8_from(old(self).src@, scan_char_ref(old(self).src@, old(self).pos).1.byte_offset as int),
                self.wf(),
                self.src == old(self).src,
                num_start == p3.byte_offset,
                num_start <= self.pos.byte_offset,
                utf8_from(self.src@, num_start as int),
                utf8_from(self.src@, self.pos.byte_offset as int),
                forall|k: int|
                    num_start <= k < self.pos.byte_offset ==> is_hex_digit(#[trigger] self.src@[k]),
                digits_rest(self.src@, p3) == (Ok::<(), ErrorKind>(()), self.pos),
            decreases self.src@.len() - self.pos.byte_offset,
        {
            match self.current() {
                None => {
                    break;
                },
                Some(c) => {
                    if c == 0x3B {
                        break;
                    }
                    if !((0x30 <= c && c <= 0x39) || (0x41 <= c && c <= 0x46) || (0x61 <= c && c
                        <= 0x66)) {
                        return Err(
                            not_well_formed_char(
                                self.pos,
                                "invalid character ",
                                c as char,
                                " in numeric character reference",
                            ),
                        );
                    }
                    proof {
                        lemma_utf8_from_ascii_step(self.src@, self.pos.byte_offset as int);
                    }
                    self.bump();
                },
            }
        }
        proof {
            lemma_utf8_slice(self.src@, num_start as int, self.pos.byte_offset as int);
        }
        let digits = self.slice(num_start);
        proof {
            let sub = self.src@.subrange(num_start as int, self.pos.byte_offset as int);
            assert forall|i: int| 0 <= i < digits.spec_bytes().len() implies is_hex_digit(
                #[trigger] digits.spec_bytes()[i],
            ) by {
                assert(digits.spec_bytes()[i] == sub[i]);
                assert(sub[i] == self.src@[num_start + i]);
            }
        }
        if self.current() != Some(0x3Bu8) {
            return Err(not_well_formed(self.pos, "expected ';' to close character reference"));
        }
        self.bump();
        let n = match u32_from_str_radix(digits, radix) {
            Some(n) => n,
            None => {
                proof {
                    encode_utf8_decode_utf8(digits@);
                }
                return Err(not_well_formed_str_end(self.pos, "invalid numeric reference ", digits));
            },
        };
        let c = match char_from_u32(n) {
            Some(c) => c,
            None => {
                let mut reason = String::from_str("character reference 0x");
                reason.append(number_text(n as u64, 16).as_str());
                reason.append(" is not a valid Unicode scalar");
                return Err(XmlError::NotWellFormed { pos: self.pos, reason });
            },
        };
        Ok(Token::CharRef(c))
    }

    /// A reference at `&` (productions 66 to 68): `&name;`, `&#nnn;` or
    /// `&#xhhh;`.
    fn scan_reference(&mut self) -> (res: Result<Token<'a>, XmlError>)
        requires
            old(self).wf(),
            old(self).at_boundary(),
            cur(old(self).src@, old(self).pos) == Some(0x26u8),
        ensures
            final(self).src == old(self).src,
            final(self).wf(),
            final(self).at_boundary(),
            token_outcome(res, scan_reference(old(self).src@, old(self).pos).0),
            final(self).pos == scan_reference(old(self).src@, old(self).pos).1,
    {
        proof {
            lemma_scan_reference_utf8(self.src@, self.pos);
            lemma_utf8_from_ascii_step(self.src@, self.pos.byte_offset as int);
        }
        self.bump();
        if self.current() == Some(0x23u8) {
            proof {
                lemma_utf8_from_ascii_step(self.src@, self.pos.byte_offset as int);
            }
            self.bump();
            self.scan_char_ref()
        } else {
            let name = match self.scan_name() {
                Ok(n) => n,
                Err(e) => {
                    return Err(e);
                },
            };
            if self.current() != Some(0x3Bu8) {
                return Err(not_well_formed(self.pos, "expected ';' to close entity reference"));
            }
            self.bump();
            Ok(Token::EntityRef(name))
        }
    }

    /// An attribute (production 41): a name, `=`, and a quoted value.
    fn scan_attribute(&mut self) -> (res: Result<Attr<'a>, XmlError>)
        requires
            old(self).wf(),
            old(self).at_boundary(),
        ensures
            final(self).src == old(self).src,
            final(self).wf(),
            final(self).at_boundary(),
            match (res, scan_attribute(old(self).src@, old(self).pos).0) {
                (Ok(a), Ok(sa)) => a@ == sa,
                (Err(e), Err(k)) => e.kind() == k,
                _ => false,
            },
            final(self).pos == scan_attribute(old(self).src@, old(self).pos).1,
    {
        proof {
            lemma_scan_attribute_utf8(self.src@, self.pos);
        }
        let attr_pos = self.pos;
        let name = match self.scan_name() {
            Ok(n) => n,
            Err(e) => {
                return Err(e);
            },
        };
        let value = match self.scan_assignment("attribute name") {
            Ok(v) => v,
            Err(e) => {
                return Err(e);
            },
        };
        Ok(Attr { name, value, pos: attr_pos })
    }

    /// A start tag or empty-element tag at `<` (productions 40, 41, 44).
    #[verifier::rlimit(40)]
    fn scan_start_or_empty(&mut self) -> (res: Result<Token<'a>, XmlError>)
        requires
            old(self).wf(),
            old(self).at_boundary(),
            cur(old(self).src@, old(self).pos) == Some(0x3Cu8),
        ensures
            final(self).src == old(self).src,
            final(self).wf(),
            final(self).at_boundary(),
            token_outcome(res, scan_start_or_empty(old(self).src@, old(self).pos).0),
            final(self).pos == scan_start_or_empty(old(self).src@, old(self).pos).1,
    {
        proof {
            lemma_scan_start_or_empty_utf8(self.src@, self.pos);
            lemma_utf8_from_ascii_step(self.src@, self.pos.byte_offset as int);
        }
        self.bump();
        let name = match self.scan_name() {
            Ok(n) => n,
            Err(e) => {
                return Err(e);
            },
        };
        let mut attributes: Vec<Attr<'a>> = Vec::new();
        assert(attrs_view(attributes@) =~= Seq::<SpecAttr>::empty());
        loop
            invariant
                utf8_from(old(self).src@, scan_start_or_empty(old(self).src@, old(self).pos).1.byte_offset as int),
                self.wf(),
                self.at_boundary(),
                self.src == old(self).src,
                scan_start_or_empty(self.src@, old(self).pos) == tag_rest(
                    self.src@,
                    name.spec_bytes(),
                    attrs_view(attributes@),
                    self.pos,
                ),
            decreases self.src@.len() - self.pos.byte_offset,
        {
            let ghost p = self.pos;
            self.skip_whitespace();
            proof {
                lemma_ws_skip(self.src@, p);
            }
            match self.current() {
                Some(c) => {
                    if c == 0x3E {
                        self.bump();
                        return Ok(Token::StartTag { name, attributes });
                    } else if c == 0x2F {
                        self.bump();
                        if self.current() != Some(0x3Eu8) {
                            return Err(not_well_formed(self.pos, "expected '>' after '/'"));
                        }
                        self.bump();
                        return Ok(Token::EmptyTag { name, attributes });
                    } else {
                        // An attribute name starts here when the character,
                        // decoded whole, is a NameStartChar.
                        match self.current_char() {
                            Some((ch, _)) => {
                                if !Self::is_name_start_char(ch) {
                                    return Err(
                                        not_well_formed_char(self.pos, "unexpected ", ch, " in start tag"),
                                    );
                                }
                            },
                            None => {
                                return Err(
                                    not_well_formed_char(self.pos, "unexpected ", c as char, " in start tag"),
                                );
                            },
                        }
                        proof {
                            crate::grammar::lemma_scan_attribute(self.src@, self.pos);
                        }
                        let a = match self.scan_attribute() {
                            Ok(a) => a,
                            Err(e) => {
                                return Err(e);
                            },
                        };
                        let ghost before = attributes@;
                        attributes.push(a);
                        assert(attrs_view(attributes@) =~= attrs_view(before).push(a@));
                    }
                },
                None => {
                    return Err(XmlError::UnexpectedEof { pos: self.pos, context: "start tag" });
                },
            }
        }
    }

    /// Markup at `<`, by what follows it: an end tag, a comment, a CDATA
    /// section, a DOCTYPE, an XML declaration or processing instruction, or a
    /// start tag.
    #[verifier::rlimit(40)]
    fn scan_open_construct(&mut self) -> (res: Result<Token<'a>, XmlError>)
        requires
            old(self).wf(),
            old(self).at_boundary(),
            cur(old(self).src@, old(self).pos) == Some(0x3Cu8),
        ensures
            final(self).src == old(self).src,
            final(self).wf(),
            final(self).at_boundary(),
            token_outcome(res, scan_open_construct(old(self).src@, old(self).pos).0),
            final(self).pos == scan_open_construct(old(self).src@, old(self).pos).1,
    {
        proof {
            lemma_scan_open_construct_utf8(self.src@, self.pos);
        }
        match self.peek(1) {
            Some(b) => {
                if b == 0x2F {
                    proof {
                        lemma_utf8_from_ascii_run(self.src@, self.pos.byte_offset as int, 2);
                    }
                    self.bump();
                    self.bump();
                    let name = match self.scan_name() {
                        Ok(n) => n,
                        Err(e) => {
                            return Err(e);
                        },
                    };
                    self.skip_whitespace();
                    if self.current() != Some(0x3Eu8) {
                        return Err(not_well_formed(self.pos, "expected '>' to close end tag"));
                    }
                    self.bump();
                    Ok(Token::EndTag(name))
                } else if b == 0x21 {
                    let k_comment: [u8; 4] = [0x3C, 0x21, 0x2D, 0x2D];
                    let k_cdata: [u8; 9] = [0x3C, 0x21, 0x5B, 0x43, 0x44, 0x41, 0x54, 0x41, 0x5B];
                    let k_doctype: [u8; 9] = [0x3C, 0x21, 0x44, 0x4F, 0x43, 0x54, 0x59, 0x50, 0x45];
                    let kc = k_comment.as_slice();
                    let kd = k_cdata.as_slice();
                    let kt = k_doctype.as_slice();
                    assert(kc@ =~= kw_comment_open());
                    assert(kd@ =~= kw_cdata_open());
                    assert(kt@ =~= kw_doctype_open());
                    let off = self.pos.byte_offset;
                    if starts_with_at(self.src, off, kc) {
                        proof {
                            lemma_utf8_from_skip(self.src@, self.pos, kw_comment_open());
                        }
                        self.pos.byte_offset += 4;
                        self.pos.column += 4;
                        match self.scan_comment_body() {
                            Ok(body) => Ok(Token::Comment(body)),
                            Err(e) => Err(e),
                        }
                    } else if starts_with_at(self.src, off, kd) {
                        proof {
                            lemma_utf8_from_skip(self.src@, self.pos, kw_cdata_open());
                        }
                        self.pos.byte_offset += 9;
                        self.pos.column += 9;
                        match self.scan_cdata_body() {
                            Ok(body) => Ok(Token::CData(body)),
                            Err(e) => Err(e),
                        }
                    } else if starts_with_at(self.src, off, kt) {
                        self.scan_doctype()
                    } else {
                        Err(not_well_formed(self.pos, "unrecognised <! construct"))
                    }
                } else if b == 0x3F {
                    proof {
                        lemma_utf8_from_ascii_run(self.src@, self.pos.byte_offset as int, 2);
                    }
                    self.bump();
                    self.bump();
                    let target = match self.scan_name() {
                        Ok(n) => n,
                        Err(e) => {
                            return Err(e);
                        },
                    };
                    if is_xml_name(target) {
                        self.scan_xmldecl_after_target()
                    } else {
                        match self.scan_pi_body() {
                            Ok(body) => Ok(Token::ProcessingInstruction { target, body }),
                            Err(e) => Err(e),
                        }
                    }
                } else {
                    self.scan_start_or_empty()
                }
            },
            None => Err(XmlError::UnexpectedEof { pos: self.pos, context: "tag" }),
        }
    }

    /// The next token, or `None` at the end of the input. What the grammar's
    /// `next_token` says of the input at the current position: the same token
    /// or error, and the same position after it, again at a character
    /// boundary.
    pub fn next_token(&mut self) -> (res: Result<Option<Token<'a>>, XmlError>)
        requires
            old(self).wf(),
            old(self).at_boundary(),
        ensures
            final(self).wf(),
            final(self).at_boundary(),
            final(self).source() == old(self).source(),
            next_outcome(res, next_token(old(self).source(), old(self).position()).0),
            final(self).position() == next_token(old(self).source(), old(self).position()).1,
    {
        proof {
            law_next_token_stops_at_boundary(self.src@, self.pos);
        }
        if self.is_eof() {
            return Ok(None);
        }
        let c = self.src[self.pos.byte_offset];
        let r = if c == 0x3C {
            self.scan_open_construct()
        } else if c == 0x26 {
            self.scan_reference()
        } else {
            self.scan_text()
        };
        match r {
            Ok(t) => Ok(Some(t)),
            Err(e) => Err(e),
        }
    }
}

/// `str::eq_ignore_ascii_case(name, "xml")`: the name is `xml` in any mix of
/// upper and lower case.
fn is_xml_name(name: &str) -> (r: bool)
    ensures
        r == is_xml_target(name.spec_bytes()),
{
    let b = name.as_bytes();
    b.len() == 3 && (b[0] == 0x78 || b[0] == 0x58) && (b[1] == 0x6D || b[1] == 0x4D) && (b[2]
        == 0x6C || b[2] == 0x4C)
}

} // verus!
