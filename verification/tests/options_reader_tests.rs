use svpflow::json_scan::{NumberScan, ParseError, ParseMessage, Parser};
use svpflow::json_value::{parse, Event};

fn err(message: ParseMessage, pos: usize, detail: Option<usize>) -> ParseError {
    ParseError { message, pos, detail }
}

#[test]
fn reads_object_with_bare_names_and_comments() {
    let input = b"// options\n{ \"a\": 1, b: [true, false, null], \"c\" /* c */ : \"x\" }";
    let events = parse(input).unwrap();
    assert_eq!(
        events,
        vec![
            Event::ObjectStart,
            Event::Key(b"a".to_vec()),
            Event::Number(NumberScan::Span { start: 18, end: 19, leading_dot: false }),
            Event::Key(b"b".to_vec()),
            Event::ArrayStart,
            Event::Bool(true),
            Event::Bool(false),
            Event::Null,
            Event::End,
            Event::Key(b"c".to_vec()),
            Event::String(b"x".to_vec()),
            Event::End,
        ]
    );
}

#[test]
fn reads_empty_containers() {
    assert_eq!(parse(b"{}").unwrap(), vec![Event::ObjectStart, Event::End]);
    assert_eq!(parse(b" [ ] ").unwrap(), vec![Event::ArrayStart, Event::End]);
    assert_eq!(
        parse(b"[[]]").unwrap(),
        vec![Event::ArrayStart, Event::ArrayStart, Event::End, Event::End]
    );
}

#[test]
fn numbers_keep_their_text() {
    assert_eq!(parse(b"-").unwrap(), vec![Event::Number(NumberScan::Zero)]);
    assert_eq!(
        parse(b"-.5").unwrap(),
        vec![Event::Number(NumberScan::Span { start: 0, end: 3, leading_dot: true })]
    );
    assert_eq!(
        parse(b"12.5e-3").unwrap(),
        vec![Event::Number(NumberScan::Span { start: 0, end: 7, leading_dot: false })]
    );
    assert_eq!(parse(b"1e"), Err(err(ParseMessage::NotANumber, 0, Some(2))));
    assert_eq!(parse(b"-.x"), Err(err(ParseMessage::NotANumber, 0, Some(2))));
}

#[test]
fn escapes_are_decoded_to_utf8() {
    let events = parse(b"\"a\\n\\u00e9\\ud83d\\ude00\\/\"").unwrap();
    assert_eq!(
        events,
        vec![Event::String(vec![b'a', b'\n', 0xC3, 0xA9, 0xF0, 0x9F, 0x98, 0x80, b'/'])]
    );
    assert_eq!(
        parse(b"\"\\udc00\"").unwrap(),
        vec![Event::String(vec![0xEF, 0xBF, 0xBD])]
    );
}

#[test]
fn bad_escapes_point_at_the_string() {
    assert_eq!(parse(b" \"\\q\""), Err(err(ParseMessage::BadEscape, 1, Some(4))));
    assert_eq!(parse(b"\"\\u12x4\""), Err(err(ParseMessage::BadUnicodeEscape, 0, Some(6))));
    assert_eq!(parse(b"\"\\ud800x\""), Err(err(ParseMessage::BadSurrogatePair, 0, Some(7))));
    assert_eq!(parse(b"\"abc"), Err(err(ParseMessage::ValueExpected, 0, None)));
}

#[test]
fn structural_errors() {
    assert_eq!(parse(b""), Err(err(ParseMessage::ValueExpected, 0, None)));
    assert_eq!(parse(b"{a 1}"), Err(err(ParseMessage::MissingColon, 3, None)));
    assert_eq!(parse(b"{a:1 b:2}"), Err(err(ParseMessage::MissingCommaOrBrace, 5, None)));
    assert_eq!(parse(b"[1 2]"), Err(err(ParseMessage::UnexpectedToken, 3, None)));
    assert_eq!(parse(b"{1:2}"), Err(err(ParseMessage::MissingMemberName, 1, None)));
    assert_eq!(parse(b"tru"), Err(err(ParseMessage::InvalidLiteral, 0, None)));
    assert_eq!(parse(b"x"), Err(err(ParseMessage::ValueExpected, 0, None)));
}

#[test]
fn comment_between_members_is_refused() {
    assert_eq!(
        parse(b"{a:1, // c\n  b:2}"),
        Err(err(ParseMessage::MissingMemberName, 13, None))
    );
    assert_eq!(
        parse(b"{a:1, /* c */ b:2}"),
        Err(err(ParseMessage::MissingMemberName, 14, None))
    );
}

#[test]
fn extra_data_only_after_a_non_object() {
    assert_eq!(parse(b"1 2"), Err(err(ParseMessage::ExtraData, 2, None)));
    assert_eq!(parse(b"{} x").unwrap(), vec![Event::ObjectStart, Event::End]);
    assert_eq!(
        parse(b"1 // end").unwrap(),
        vec![Event::Number(NumberScan::Span { start: 0, end: 1, leading_dot: false })]
    );
}

#[test]
fn later_member_with_same_name_is_kept_in_order() {
    let events = parse(b"{a:1,a:2}").unwrap();
    assert_eq!(events.len(), 6);
    assert_eq!(events[3], Event::Key(b"a".to_vec()));
}

#[test]
fn line_and_column_of_offsets() {
    let bytes = b"ab\ncd\r\nef\rg";
    let parser = Parser::new(bytes);
    assert_eq!(parser.line_column_at(0), (1, 1));
    assert_eq!(parser.line_column_at(4), (2, 2));
    assert_eq!(parser.line_column_at(7), (3, 1));
    assert_eq!(parser.line_column_at(10), (4, 1));
    assert_eq!(parser.line_column_at(100), (4, 2));
}

#[test]
fn skip_ws_passes_comments() {
    let bytes = b"  // x\n /* y */ 1";
    let mut parser = Parser::new(bytes);
    parser.skip_ws();
    assert_eq!(parser.pos, 16);
    let open = b" /* never closed";
    let mut parser = Parser::new(open);
    parser.skip_ws();
    assert_eq!(parser.pos, open.len());
}
