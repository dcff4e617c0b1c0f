//! Tests of the library's laws on concrete inputs, of each error kind, of
//! exact positions and messages, and of entity measurement.

use expat_rs::entities::{builtin_entity, parse_internal_subset};
use expat_rs::text::number_text;
use expat_rs::{EntityTable, Event, ExpansionLimits, Lexer, Parser, Position, Token, XmlError};

fn events(src: &str) -> Result<Vec<Event<'_>>, XmlError> {
    let mut p = Parser::new(src);
    let mut out = Vec::new();
    while let Some(e) = p.next_event()? {
        out.push(e);
    }
    Ok(out)
}

fn events_with(src: &str, limits: ExpansionLimits) -> Result<Vec<Event<'_>>, XmlError> {
    let mut p = Parser::new(src).with_expansion_limits(limits);
    let mut out = Vec::new();
    while let Some(e) = p.next_event()? {
        out.push(e);
    }
    Ok(out)
}

fn tokens(src: &str) -> Result<Vec<Token<'_>>, XmlError> {
    let mut lex = Lexer::new(src);
    let mut out = Vec::new();
    while let Some(t) = lex.next_token()? {
        out.push(t);
    }
    Ok(out)
}

fn table(decls: &[(&str, &str)]) -> EntityTable {
    let mut t = EntityTable::new();
    for (n, v) in decls {
        t.declare(n.to_string(), v.to_string());
    }
    t
}

fn limits(max_depth: usize, max_expanded_bytes: usize) -> ExpansionLimits {
    ExpansionLimits { max_depth, max_expanded_bytes }
}

// ─── Nesting, root, end of document ─────────────────────────────────────────

#[test]
fn elements_open_and_close_in_stack_order() {
    let es = events("<a><b></b><c/><d>t</d></a>").unwrap();
    let shape: Vec<String> = es
        .iter()
        .map(|e| match e {
            Event::StartElement { name, .. } => format!("+{name}"),
            Event::EndElement(n) => format!("-{n}"),
            Event::Text(t) => format!("'{t}'"),
            other => format!("{other:?}"),
        })
        .collect();
    assert_eq!(shape, vec!["+a", "+b", "-b", "+c", "-c", "+d", "'t'", "-d", "-a"]);
}

#[test]
fn epilog_allows_comments_pis_and_whitespace() {
    let es = events("<a></a>\n<!--c-->\n<?pi x?>\n").unwrap();
    assert_eq!(es.len(), 4);
    assert!(matches!(&es[2], Event::Comment(s) if *s == "c"));
    assert!(matches!(&es[3], Event::ProcessingInstruction { target, body } if *target == "pi" && *body == "x"));
}

#[test]
fn start_tag_in_epilog_is_rejected_after_end_tag_root() {
    assert!(events("<a></a><b></b>").is_err());
}

#[test]
fn empty_document_has_no_root() {
    assert!(matches!(events("").unwrap_err(), XmlError::NotWellFormed { .. }));
    assert!(matches!(events("   \n").unwrap_err(), XmlError::NotWellFormed { .. }));
}

#[test]
fn unclosed_nested_element_is_rejected() {
    assert!(events("<a><b></b>").is_err());
}

#[test]
fn end_of_stream_repeats_after_the_document() {
    let mut p = Parser::new("<r/>");
    assert!(p.next_event().unwrap().is_some());
    assert!(p.next_event().unwrap().is_some());
    assert!(p.next_event().unwrap().is_none());
    assert!(p.next_event().unwrap().is_none());
}

// ─── Attributes, declarations, content placement ────────────────────────────

#[test]
fn distinct_attributes_accepted_duplicate_later_rejected() {
    let es = events(r#"<a x="1" y='2'/>"#).unwrap();
    if let Event::StartElement { attributes, .. } = &es[0] {
        assert_eq!(attributes.len(), 2);
        assert_eq!(attributes[1].name, "y");
        assert_eq!(attributes[1].value, "2");
    } else {
        panic!("not a StartElement");
    }
    assert!(events(r#"<a x="1" y="2" x="3"></a>"#).is_err());
}

#[test]
fn xml_declaration_after_an_event_is_rejected() {
    let err = events("<!--c--><?xml version='1.0'?><r/>").unwrap_err();
    assert!(err.message().ends_with("XML declaration must be the first thing in the document"));
    let err = events("<?p x?><?xml version='1.0'?><r/>").unwrap_err();
    assert!(err.message().ends_with("XML declaration must be the first thing in the document"));
    // White space before it gives no event.
    let es = events("\n<?xml version='1.0'?><r/>").unwrap();
    assert!(matches!(&es[0], Event::XmlDecl(_)));
}

#[test]
fn xml_declaration_after_doctype_is_rejected() {
    assert!(events("<!DOCTYPE r><?xml version='1.0'?><r/>").is_err());
}

#[test]
fn xml_declaration_target_is_case_insensitive() {
    let ts = tokens("<?XmL version='1.1' standalone='no'?>").unwrap();
    if let Token::XmlDecl(d) = &ts[0] {
        assert_eq!(d.version, "1.1");
        assert_eq!(d.encoding, None);
        assert_eq!(d.standalone, Some(false));
    } else {
        panic!("not an XmlDecl");
    }
}

#[test]
fn xml_declaration_needs_version_first() {
    assert!(tokens("<?xml encoding='UTF-8'?>").is_err());
    assert!(tokens("<?xml version='1.0' standalone='maybe'?>").is_err());
    assert!(tokens("<?xml version='1.0' bogus='1'?>").is_err());
}

#[test]
fn cdata_outside_root_is_rejected_inside_accepted() {
    assert!(events("<![CDATA[x]]><r/>").is_err());
    let es = events("<r><![CDATA[a<b]]></r>").unwrap();
    assert!(matches!(&es[1], Event::CData(s) if *s == "a<b"));
}

#[test]
fn character_reference_outside_root_is_rejected() {
    assert!(events("&#65;<r/>").is_err());
    let es = events("<r>&#65;&#x1F600;</r>").unwrap();
    assert!(matches!(&es[1], Event::Text(s) if *s == "A"));
    assert!(matches!(&es[2], Event::Text(s) if *s == "😀"));
}

#[test]
fn predefined_entity_gives_its_text() {
    let es = events("<r>&lt;&apos;</r>").unwrap();
    assert!(matches!(&es[1], Event::Text(s) if *s == "<"));
    assert!(matches!(&es[2], Event::Text(s) if *s == "'"));
}

#[test]
fn doctype_declares_entities_for_the_document() {
    let es = events("<!DOCTYPE r [ <!ENTITY e 'v'> ]><r>&e;</r>").unwrap();
    assert!(matches!(&es[0], Event::Doctype { name, body } if *name == "r" && *body == "[ <!ENTITY e 'v'> ]"));
    assert!(matches!(&es[2], Event::Text(s) if *s == "v"));
}

#[test]
fn declared_entity_gives_its_replacement_text() {
    let es = events("<!DOCTYPE x [<!ENTITY g 'hi'>]><x>&g;</x>").unwrap();
    assert!(matches!(&es[2], Event::Text(s) if *s == "hi"));
    let doc = "<!DOCTYPE x [<!ENTITY a 'x&lt;&#65;é'><!ENTITY b '&a;!&a;'>]><x>&b;</x>";
    let es = events(doc).unwrap();
    assert!(matches!(&es[2], Event::Text(s) if *s == "x<Aé!x<Aé"));
    let err = events("<!DOCTYPE x [<!ENTITY a 'y&#xZZ;'>]><x>&a;</x>").unwrap_err();
    assert!(err.message().ends_with("invalid character reference in entity \"a\""));
}

#[test]
fn expand_builds_the_text_that_validate_expansion_measures() {
    let t = table(&[("a", "abc"), ("b", "&a;-&quot;&a;"), ("c", "&#1114111;")]);
    let pos = Position::start();
    assert_eq!(t.expand("b", limits(20, 100), pos).unwrap(), "abc-\"abc");
    assert_eq!(t.validate_expansion("b", limits(20, 100), pos).unwrap(), 8);
    assert_eq!(t.expand("c", limits(20, 100), pos).unwrap(), "\u{10FFFF}");
    assert!(t.expand("b", limits(1, 100), pos).unwrap_err().message().contains("maximum nesting depth"));
    assert!(t.expand("zz", limits(20, 100), pos).is_err());
}

// ─── Entity expansion ───────────────────────────────────────────────────────

#[test]
fn cumulative_budget_rejects_the_reference_that_crosses_it() {
    let doc2 = "<!DOCTYPE x [<!ENTITY a \"aaaaaaaaaa\">]><x>&a;&a;</x>";
    let doc3 = "<!DOCTYPE x [<!ENTITY a \"aaaaaaaaaa\">]><x>&a;&a;&a;</x>";
    assert!(events_with(doc2, limits(20, 25)).is_ok());
    let err = events_with(doc3, limits(20, 25)).unwrap_err();
    assert!(err.message().contains("cumulative entity expansion exceeded 25 bytes"));
}

#[test]
fn three_entity_cycle_rejected() {
    let doc = "<!DOCTYPE x [<!ENTITY a '&b;'><!ENTITY b '&c;'><!ENTITY c '&a;x'>]><x>&a;</x>";
    assert!(events(doc).is_err());
}

#[test]
fn measured_length_of_nested_entities() {
    let t = table(&[("a", "abc"), ("b", "&a;&a;"), ("c", "&lt;x"), ("d", "&#65;")]);
    let pos = Position::start();
    assert_eq!(t.validate_expansion("a", limits(20, 100), pos).unwrap(), 3);
    assert_eq!(t.validate_expansion("b", limits(20, 100), pos).unwrap(), 6);
    assert_eq!(t.validate_expansion("c", limits(20, 100), pos).unwrap(), 2);
    assert_eq!(t.validate_expansion("d", limits(20, 100), pos).unwrap(), 4);
}

#[test]
fn nested_expansion_is_charged_once_against_the_budget() {
    // The budget bounds the total expansion: `b` expands to 6 bytes and
    // needs 6 bytes of budget.
    let t = table(&[("a", "abc"), ("b", "&a;&a;")]);
    let pos = Position::start();
    assert_eq!(t.validate_expansion("b", limits(20, 6), pos).unwrap(), 6);
    assert!(t.validate_expansion("b", limits(20, 5), pos).is_err());
    let t = table(&[("a", "abcdefghij"), ("b", "&a;&a;&a;&a;&a;")]);
    assert_eq!(t.validate_expansion("b", limits(20, 60), pos).unwrap(), 50);
    assert_eq!(t.validate_expansion("b", limits(20, 50), pos).unwrap(), 50);
    assert!(t.validate_expansion("b", limits(20, 49), pos).is_err());
}

#[test]
fn a_document_without_references_ignores_the_limits() {
    let doc = "<?xml version='1.0'?><!DOCTYPE r [<!ENTITY a 'x'>]><r k='v'>t<![CDATA[c]]><e/></r>";
    assert_eq!(events_with(doc, limits(0, 0)).unwrap(), events(doc).unwrap());
}

#[test]
fn built_text_is_within_the_measure() {
    let t = table(&[("c", "&#65;&#x10FFFF;"), ("d", "&c;é")]);
    let pos = Position::start();
    assert_eq!(t.validate_expansion("c", limits(20, 100), pos).unwrap(), 8);
    assert_eq!(t.expand("c", limits(20, 100), pos).unwrap().len(), 5);
    assert_eq!(t.validate_expansion("d", limits(20, 100), pos).unwrap(), 10);
    assert_eq!(t.expand("d", limits(20, 100), pos).unwrap(), "A\u{10FFFF}é");
}

#[test]
fn raising_the_limits_keeps_an_accepted_expansion() {
    let t = table(&[("a", "abc"), ("b", "&a;&lt;"), ("c", "&b;&b;")]);
    let pos = Position::start();
    let small = t.validate_expansion("c", limits(3, 8), pos).unwrap();
    assert_eq!(small, 8);
    assert_eq!(t.validate_expansion("c", limits(4, 100), pos).unwrap(), small);
    assert_eq!(t.validate_expansion("c", limits(20, 1048576), pos).unwrap(), small);
    assert!(t.validate_expansion("c", limits(2, 100), pos).is_err());
    assert!(t.validate_expansion("c", limits(3, 7), pos).is_err());
}

#[test]
fn depth_limit_counts_nesting_levels() {
    let t = table(&[("a", "abc"), ("b", "&a;")]);
    let pos = Position::start();
    assert_eq!(t.validate_expansion("a", limits(1, 100), pos).unwrap(), 3);
    let err = t.validate_expansion("b", limits(1, 100), pos).unwrap_err();
    assert!(err.message().contains("maximum nesting depth"));
    assert!(t.validate_expansion("a", limits(0, 100), pos).is_err());
}

#[test]
fn malformed_reference_in_value_is_rejected() {
    let t = table(&[("a", "x&y")]);
    let err = t.validate_expansion("a", limits(20, 100), Position::start()).unwrap_err();
    assert!(err.message().contains("no ';'"));
}

#[test]
fn undeclared_entity_error_names_it() {
    let t = table(&[]);
    let err = t.validate_expansion("missing", limits(20, 100), Position::start()).unwrap_err();
    assert!(err.message().ends_with("undeclared entity \"missing\""));
}

#[test]
fn later_declaration_wins() {
    let mut t = EntityTable::new();
    assert!(!t.is_declared("a"));
    t.declare("a".to_string(), "x".to_string());
    t.declare("a".to_string(), "xyz".to_string());
    assert!(t.is_declared("a"));
    assert_eq!(t.validate_expansion("a", limits(20, 100), Position::start()).unwrap(), 3);
}

#[test]
fn internal_subset_reads_general_entities_only() {
    let mut t = EntityTable::new();
    parse_internal_subset(
        r#" <!ENTITY a "x"> <!ENTITY % p "y"> <!ENTITY b 'zz'> <!ELEMENT r ANY> <!ENTITY c>"#,
        &mut t,
    );
    assert!(t.is_declared("a"));
    assert!(t.is_declared("b"));
    assert!(!t.is_declared("p"));
    assert!(!t.is_declared("c"));
    assert_eq!(t.validate_expansion("b", limits(20, 100), Position::start()).unwrap(), 2);
}

#[test]
fn plain_value_measures_its_length_or_is_refused() {
    let t = table(&[("a", "hello"), ("u", "é!")]);
    let pos = Position::start();
    assert_eq!(t.validate_expansion("a", limits(1, 5), pos).unwrap(), 5);
    let err = t.validate_expansion("a", limits(1, 4), pos).unwrap_err();
    assert!(err.message().ends_with("entity expansion of \"a\" exceeded byte budget"));
    assert_eq!(t.validate_expansion("u", limits(1, 100), pos).unwrap(), 3);
}

#[test]
fn builtin_entities_are_the_five() {
    assert_eq!(builtin_entity("lt"), Some("<"));
    assert_eq!(builtin_entity("gt"), Some(">"));
    assert_eq!(builtin_entity("amp"), Some("&"));
    assert_eq!(builtin_entity("quot"), Some("\""));
    assert_eq!(builtin_entity("apos"), Some("'"));
    assert_eq!(builtin_entity("nbsp"), None);
    assert_eq!(builtin_entity("LT"), None);
}

// ─── Tokens and positions ───────────────────────────────────────────────────

#[test]
fn text_stops_at_markup() {
    let ts = tokens("a<b/>c&amp;d").unwrap();
    assert!(matches!(ts[0], Token::Text(s) if s == "a"));
    assert!(matches!(ts[2], Token::Text(s) if s == "c"));
    assert!(matches!(ts[3], Token::EntityRef(s) if s == "amp"));
    assert!(matches!(ts[4], Token::Text(s) if s == "d"));
}

#[test]
fn non_ascii_text_and_names_are_exact_slices() {
    let ts = tokens("<é>héllo — ✓</é>").unwrap();
    assert!(matches!(&ts[0], Token::StartTag { name, .. } if *name == "é"));
    assert!(matches!(ts[1], Token::Text(s) if s == "héllo — ✓"));
    assert!(matches!(ts[2], Token::EndTag(s) if s == "é"));
}

#[test]
fn every_text_a_token_carries_is_an_exact_slice() {
    let src = "<!DOCTYPE ř [ <!ENTITY é 'ü'> ]><r a='xé'><!--ü--><?p ñ?><![CDATA[ø]]>ç&é;</r>";
    let ts = tokens(src).unwrap();
    assert!(matches!(&ts[0], Token::Doctype { name, body } if *name == "ř" && *body == "[ <!ENTITY é 'ü'> ]"));
    assert!(matches!(&ts[1], Token::StartTag { attributes, .. } if attributes[0].value == "xé"));
    assert!(matches!(ts[2], Token::Comment(s) if s == "ü"));
    assert!(matches!(&ts[3], Token::ProcessingInstruction { target, body } if *target == "p" && *body == "ñ"));
    assert!(matches!(ts[4], Token::CData(s) if s == "ø"));
    assert!(matches!(ts[5], Token::Text(s) if s == "ç"));
    assert!(matches!(ts[6], Token::EntityRef(s) if s == "é"));
}

#[test]
fn end_tag_errors_name_the_tags() {
    let err = events("<a></b>").unwrap_err();
    assert!(err.message().ends_with("end tag </b> does not match start tag <a>"));
    let err = events("<a/></b>").unwrap_err();
    assert!(err.message().ends_with("unexpected end tag </b> with no matching start"));
    let err = events("<a>\n<é>").unwrap_err();
    assert!(err.message().ends_with("unclosed element \"é\""));
    let err = events(r#"<a x="1" y="2" y="3" x="4"/>"#).unwrap_err();
    assert!(err.message().ends_with("duplicate attribute \"y\""));
}

#[test]
fn attribute_positions_count_columns_by_character_in_names() {
    let ts = tokens("<a  x=\"1\">").unwrap();
    if let Token::StartTag { attributes, .. } = &ts[0] {
        assert_eq!(attributes[0].pos, Position { line: 1, column: 5, byte_offset: 4 });
    } else {
        panic!("not a StartTag");
    }
    let ts = tokens("<é x=\"1\"/>").unwrap();
    if let Token::EmptyTag { attributes, .. } = &ts[0] {
        assert_eq!(attributes[0].pos, Position { line: 1, column: 4, byte_offset: 4 });
    } else {
        panic!("not an EmptyTag");
    }
}

#[test]
fn error_position_follows_lines() {
    let mut lex = Lexer::new("\n\n<!-- a -- b -->");
    assert!(matches!(lex.next_token().unwrap(), Some(Token::Text(s)) if s == "\n\n"));
    let err = lex.next_token().unwrap_err();
    assert_eq!(
        err,
        XmlError::NotWellFormed {
            pos: Position { line: 3, column: 8, byte_offset: 9 },
            reason: "'--' not allowed within a comment".to_string(),
        }
    );
}

#[test]
fn unexpected_eof_names_the_construct() {
    let err = Lexer::new("<!-- open").next_token().unwrap_err();
    assert!(matches!(err, XmlError::UnexpectedEof { context, .. } if context == "Comment"));
    let err = Lexer::new("<![CDATA[x").next_token().unwrap_err();
    assert!(matches!(err, XmlError::UnexpectedEof { context, .. } if context == "CDATA"));
    let err = Lexer::new("<a x=\"1").next_token().unwrap_err();
    assert!(matches!(err, XmlError::UnexpectedEof { context, .. } if context == "AttValue"));
    let err = Lexer::new("<!DOCTYPE r [").next_token().unwrap_err();
    assert!(matches!(err, XmlError::UnexpectedEof { context, .. } if context == "DOCTYPE"));
    let err = Lexer::new("<").next_token().unwrap_err();
    assert!(matches!(err, XmlError::UnexpectedEof { context, .. } if context == "tag"));
}

#[test]
fn invalid_name_start_is_an_invalid_char() {
    let err = Lexer::new("<1a>").next_token().unwrap_err();
    assert_eq!(err, XmlError::InvalidChar { pos: Position { line: 1, column: 2, byte_offset: 1 }, char: '1' });
}

#[test]
fn names_take_every_character_whole() {
    let ts = tokens("<abcé/>").unwrap();
    assert!(matches!(&ts[0], Token::EmptyTag { name, .. } if *name == "abcé"));
    let ts = tokens("<abcdé>").unwrap();
    assert!(matches!(&ts[0], Token::StartTag { name, .. } if *name == "abcdé"));
    let ts = tokens("<a><é>").unwrap();
    assert!(matches!(&ts[1], Token::StartTag { name, .. } if *name == "é"));
}

#[test]
fn keyword_followed_by_a_name_character_is_no_keyword() {
    let err = Lexer::new("<?xml versionא='1.0'?>").next_token().unwrap_err();
    assert!(err.message().ends_with("expected keyword \"version\""));
    let err = Lexer::new("<?xml version='1.0' encodingé='x'?>").next_token().unwrap_err();
    assert!(err.message().ends_with("unexpected token in XML declaration"));
}

#[test]
fn non_ascii_attribute_names_are_accepted() {
    let ts = tokens("<a א='1'/>").unwrap();
    if let Token::EmptyTag { attributes, .. } = &ts[0] {
        assert_eq!(attributes[0].name, "א");
        assert_eq!(attributes[0].value, "1");
        assert_eq!(attributes[0].pos, Position { line: 1, column: 4, byte_offset: 3 });
    } else {
        panic!("not an EmptyTag");
    }
    // A character that cannot start a name is shown whole in the error.
    let err = Lexer::new("<a ×='1'/>").next_token().unwrap_err();
    assert!(err.message().ends_with("unexpected '×' in start tag"));
}

#[test]
fn ampersand_in_attribute_value_must_start_a_reference() {
    let err = Lexer::new("<a v='x & y'/>").next_token().unwrap_err();
    assert_eq!(
        err,
        XmlError::NotWellFormed {
            pos: Position { line: 1, column: 9, byte_offset: 8 },
            reason: "'&' in attribute value does not start a reference".to_string(),
        }
    );
    let err = Lexer::new("<a v='x &y'/>").next_token().unwrap_err();
    assert!(err.message().ends_with("'&' in attribute value does not start a reference"));
    assert!(tokens("<a v='x&'/>").is_err());
    assert!(tokens("<a v='&#xZ;'/>").is_err());
    let ts = tokens("<a v='x &amp; y &#60; &#x3C;'/>").unwrap();
    if let Token::EmptyTag { attributes, .. } = &ts[0] {
        assert_eq!(attributes[0].value, "x &amp; y &#60; &#x3C;");
    } else {
        panic!("not an EmptyTag");
    }
}

#[test]
fn parser_errors_point_at_the_offending_token() {
    let err = events("<a></b>").unwrap_err();
    assert_eq!(
        err,
        XmlError::NotWellFormed {
            pos: Position { line: 1, column: 4, byte_offset: 3 },
            reason: "end tag </b> does not match start tag <a>".to_string(),
        }
    );
    let err = events("<r>\n&nope;</r>").unwrap_err();
    assert!(matches!(err, XmlError::NotWellFormed { pos, .. }
        if pos == Position { line: 2, column: 1, byte_offset: 4 }));
    // At the end of the input, the error is reported there.
    let err = events("<r>\n<s>").unwrap_err();
    assert!(matches!(err, XmlError::NotWellFormed { pos, .. }
        if pos == Position { line: 2, column: 4, byte_offset: 7 }));
}

#[test]
fn unexpected_byte_in_start_tag_is_quoted() {
    let err = Lexer::new("<a =\"1\">").next_token().unwrap_err();
    assert!(err.message().ends_with("unexpected '=' in start tag"));
}

#[test]
fn character_references_are_checked() {
    assert!(matches!(tokens("&#x1F600;").unwrap()[0], Token::CharRef('😀')));
    assert!(tokens("&#1F;").is_err());
    assert!(tokens("&#;").is_err());
    assert!(tokens("&#99999999999;").is_err());
    let err = Lexer::new("&#xD800;").next_token().unwrap_err();
    assert!(err.message().ends_with("character reference 0xd800 is not a valid Unicode scalar"));
    assert!(tokens("&#x110000;").is_err());
    assert!(tokens("&#65").is_err());
}

#[test]
fn doctype_body_is_trimmed_and_brackets_nest() {
    let ts = tokens("<!DOCTYPE r  [ <!ENTITY a '>'> [x] ]  >").unwrap();
    assert!(matches!(&ts[0], Token::Doctype { name, body } if *name == "r" && *body == "[ <!ENTITY a '>'> [x] ]"));
}

#[test]
fn unknown_bang_construct_is_rejected() {
    assert!(tokens("<!ELEMENT a>").is_err());
}

#[test]
fn lexer_ends_on_every_input() {
    let ts = tokens("<a b='c'><!--x--><?p q?>t&amp;&#x41;<![CDATA[d]]></a>").unwrap();
    assert_eq!(ts.len(), 8);
}

// ─── Messages and numbers ───────────────────────────────────────────────────

#[test]
fn message_shows_position_and_reason() {
    let err = events("<!-- only a comment -->").unwrap_err();
    assert_eq!(
        err.message(),
        "not well-formed at Position { line: 1, column: 24, byte_offset: 23 }: no root element"
    );
    let err = Lexer::new("<!-- x").next_token().unwrap_err();
    assert_eq!(
        err.message(),
        "unexpected end of input at Position { line: 1, column: 7, byte_offset: 6 } (in Comment)"
    );
    let err = Lexer::new("<1>").next_token().unwrap_err();
    assert_eq!(
        err.message(),
        "invalid character '1' at Position { line: 1, column: 2, byte_offset: 1 }"
    );
}

#[test]
fn numbers_in_decimal_and_hex() {
    assert_eq!(number_text(0, 10), "0");
    assert_eq!(number_text(1048576, 10), "1048576");
    assert_eq!(number_text(255, 16), "ff");
    assert_eq!(number_text(0x10FFFF, 16), "10ffff");
}

#[test]
fn start_position() {
    assert_eq!(Position::start(), Position { line: 1, column: 1, byte_offset: 0 });
}

#[test]
fn default_limits() {
    let l = ExpansionLimits::default();
    assert_eq!(l.max_depth, 20);
    assert_eq!(l.max_expanded_bytes, 1048576);
}
