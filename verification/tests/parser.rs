use alf::log_parser::{LineParser, LogField, ParserError};

const EXAMPLE: &[u8] = b"127.0.0.1 - frank [10/Oct/2000:13:55:36 -0700] \"GET /apache_pb.gif HTTP/1.0\" 200 2326 \"http://www.example.com/\" \"Mozilla/4.08\"";

#[test]
fn combined_full_line() {
    let format = LogField::log_format_combined();
    let parser = LineParser::new(&format, None);
    let result = parser.parse_line(EXAMPLE).unwrap();
    let expected: Vec<&[u8]> = vec![
        b"127.0.0.1",
        b"-",
        b"frank",
        b"10/Oct/2000:13:55:36 -0700",
        b"GET",
        b"/apache_pb.gif",
        b"HTTP/1.0",
        b"200",
        b"2326",
        b"http://www.example.com/",
        b"Mozilla/4.08",
    ];
    assert_eq!(result, expected);
}

#[test]
fn projection_selects_in_request_order() {
    let format = LogField::log_format_combined();
    let parser = LineParser::new(
        &format,
        Some(vec!["status".to_string(), "ip".to_string()]),
    );
    let result = parser.parse_line(EXAMPLE).unwrap();
    let expected: Vec<&[u8]> = vec![b"200", b"127.0.0.1"];
    assert_eq!(result, expected);
}

#[test]
fn projection_duplicates_resolve_independently() {
    let format = LogField::log_format_combined();
    let parser = LineParser::new(
        &format,
        Some(vec![
            "status".to_string(),
            "ip".to_string(),
            "status".to_string(),
        ]),
    );
    let result = parser.parse_line(EXAMPLE).unwrap();
    let expected: Vec<&[u8]> = vec![b"200", b"127.0.0.1", b"200"];
    assert_eq!(result, expected);
}

#[test]
fn unknown_projection_name_is_dropped() {
    let format = LogField::log_format_combined();
    let parser = LineParser::new(
        &format,
        Some(vec!["bogus".to_string(), "ip".to_string()]),
    );
    let result = parser.parse_line(EXAMPLE).unwrap();
    let expected: Vec<&[u8]> = vec![b"127.0.0.1"];
    assert_eq!(result, expected);
}

#[test]
fn all_unknown_projection_names_yield_empty_result() {
    let format = LogField::log_format_combined();
    let parser = LineParser::new(&format, Some(vec!["bogus".to_string()]));
    let result = parser.parse_line(EXAMPLE).unwrap();
    assert!(result.is_empty());
}

#[test]
fn request_itself_is_selectable() {
    let format = LogField::log_format_combined();
    let parser = LineParser::new(&format, Some(vec!["request".to_string()]));
    let result = parser.parse_line(EXAMPLE).unwrap();
    let expected: Vec<&[u8]> = vec![b"GET /apache_pb.gif HTTP/1.0"];
    assert_eq!(result, expected);
}

#[test]
fn dash_request_yields_three_dashes() {
    let format = LogField::log_format_common();
    let parser = LineParser::new(&format, None);
    let line: &[u8] = b"127.0.0.1 - frank [10/Oct/2000:13:55:36 -0700] \"-\" 200 2326";
    let result = parser.parse_line(line).unwrap();
    let expected: Vec<&[u8]> = vec![
        b"127.0.0.1",
        b"-",
        b"frank",
        b"10/Oct/2000:13:55:36 -0700",
        b"-",
        b"-",
        b"-",
        b"200",
        b"2326",
    ];
    assert_eq!(result, expected);
}

#[test]
fn request_with_one_space_fails_expecting_quote_context() {
    let format = LogField::log_format_common();
    let parser = LineParser::new(&format, None);
    let line: &[u8] = b"127.0.0.1 - frank [10/Oct/2000:13:55:36 -0700] \"GET/x HTTP/1.0\" 200 2326";
    match parser.parse_line(line) {
        Err(ParserError::UnexpectedCharacter(' ', '"', _)) => {}
        other => panic!("expected a quote-context character error, got {:?}", other.err()),
    }
}

#[test]
fn request_with_no_space_fails_expecting_quote_context() {
    let format = LogField::log_format_common();
    let parser = LineParser::new(&format, None);
    let line: &[u8] = b"127.0.0.1 - frank [10/Oct/2000:13:55:36 -0700] \"GET\" 200 2326";
    match parser.parse_line(line) {
        Err(ParserError::UnexpectedCharacter(' ', '"', _)) => {}
        other => panic!("expected a quote-context character error, got {:?}", other.err()),
    }
}

#[test]
fn escaped_quote_does_not_terminate_field() {
    let format = LogField::log_format_combined();
    let parser = LineParser::new(&format, Some(vec!["referer".to_string()]));
    let line: &[u8] = b"127.0.0.1 - frank [10/Oct/2000:13:55:36 -0700] \"GET /x HTTP/1.0\" 200 2326 \"fo\\\"o\" \"UA\"";
    let result = parser.parse_line(line).unwrap();
    let expected: Vec<&[u8]> = vec![b"fo\\\"o"];
    assert_eq!(result, expected);
}

#[test]
fn missing_closing_bracket_is_end_of_line() {
    let format = LogField::log_format_common();
    let parser = LineParser::new(&format, None);
    let line: &[u8] = b"127.0.0.1 - frank [10/Oct/2000:13:55:36 -0700 \"GET /x HTTP/1.0\" 200 2326";
    match parser.parse_line(line) {
        Err(ParserError::UnexpectedEndOfLine) => {}
        other => panic!("expected end of line, got {:?}", other.err()),
    }
}

#[test]
fn missing_closing_quote_is_end_of_line() {
    let format = LogField::log_format_common();
    let parser = LineParser::new(&format, None);
    let line: &[u8] = b"127.0.0.1 - frank [10/Oct/2000:13:55:36 -0700] \"GET /x HTTP/1.0 200 2326";
    match parser.parse_line(line) {
        Err(ParserError::UnexpectedEndOfLine) => {}
        other => panic!("expected end of line, got {:?}", other.err()),
    }
}

#[test]
fn short_line_is_end_of_line() {
    let format = LogField::log_format_common();
    let parser = LineParser::new(&format, None);
    match parser.parse_line(b"127.0.0.1 -") {
        Err(ParserError::UnexpectedEndOfLine) => {}
        other => panic!("expected end of line, got {:?}", other.err()),
    }
}

#[test]
fn empty_line_is_end_of_line() {
    let format = LogField::log_format_combined();
    let parser = LineParser::new(&format, None);
    match parser.parse_line(b"") {
        Err(ParserError::UnexpectedEndOfLine) => {}
        other => panic!("expected end of line, got {:?}", other.err()),
    }
}

#[test]
fn missing_separator_reports_the_byte_found() {
    let format = LogField::log_format_common();
    let parser = LineParser::new(&format, None);
    let line: &[u8] = b"127.0.0.1 - frank [10/Oct/2000:13:55:36 -0700]x \"GET /x HTTP/1.0\" 200 2326";
    match parser.parse_line(line) {
        Err(ParserError::UnexpectedCharacter(' ', 'x', offset)) => {
            assert_eq!(line[offset], b'x');
        }
        other => panic!("expected a separator error, got {:?}", other.err()),
    }
}

#[test]
fn projection_short_circuits_trailing_garbage() {
    // Only the fields up to the highest requested one are touched, so a
    // malformed tail after the ip field is never reached.
    let format = LogField::log_format_combined();
    let parser = LineParser::new(&format, Some(vec!["ip".to_string()]));
    let result = parser.parse_line(b"127.0.0.1 [[[not-a-valid-tail").unwrap();
    let expected: Vec<&[u8]> = vec![b"127.0.0.1"];
    assert_eq!(result, expected);
}

#[test]
fn wrong_opening_bracket_reports_the_cursor() {
    let format = LogField::log_format_common();
    let parser = LineParser::new(&format, None);
    let line: &[u8] = b"127.0.0.1 - frank x 200";
    match parser.parse_line(line) {
        Err(ParserError::UnexpectedCharacter('[', 'x', offset)) => {
            assert_eq!(line[offset], b'x');
        }
        other => panic!("expected a bracket error, got {:?}", other.err()),
    }
}

#[test]
fn wrong_opening_quote_reports_the_cursor() {
    let format = LogField::log_format_common();
    let parser = LineParser::new(&format, None);
    let line: &[u8] = b"127.0.0.1 - frank [t] GET / HTTP/1.0 200 2326";
    match parser.parse_line(line) {
        Err(ParserError::UnexpectedCharacter('"', 'G', offset)) => {
            assert_eq!(line[offset], b'G');
        }
        other => panic!("expected a quote error, got {:?}", other.err()),
    }
}

#[test]
fn computed_fields_need_no_input_beyond_their_source() {
    // A projection ending at a computed sub-field is satisfied once the
    // request field itself has been read, even at end of line.
    let format = LogField::log_format_common();
    let parser = LineParser::new(&format, Some(vec!["method".to_string()]));
    let line: &[u8] = b"127.0.0.1 - frank [t] \"GET /x HTTP/1.0\"";
    let result = parser.parse_line(line).unwrap();
    let expected: Vec<&[u8]> = vec![b"GET"];
    assert_eq!(result, expected);
}

#[test]
fn get_names_lists_declared_names_in_order() {
    let format = LogField::log_format_combined();
    let names = LogField::get_names(&format);
    assert_eq!(
        names,
        vec![
            "ip",
            "rfc1413",
            "username",
            "time",
            "request",
            "method",
            "uri",
            "http",
            "status",
            "responsesize",
            "referer",
            "useragent",
        ]
    );
}

#[test]
fn vhost_common_prepends_vhost() {
    let format = LogField::log_format_vhost_common();
    let names = LogField::get_names(&format);
    assert_eq!(names.len(), 11);
    assert_eq!(names[0], "vhost");
    assert_eq!(names[1], "ip");
    assert_eq!(names[10], "responsesize");
}

#[test]
fn combinedio_appends_input_and_output() {
    let format = LogField::log_format_combinedio();
    let names = LogField::get_names(&format);
    assert_eq!(names.len(), 14);
    assert_eq!(names[12], "input");
    assert_eq!(names[13], "output");
}

#[test]
fn vhost_common_parses_a_leading_word() {
    let format = LogField::log_format_vhost_common();
    let parser = LineParser::new(&format, Some(vec!["vhost".to_string(), "status".to_string()]));
    let line: &[u8] = b"example.org 127.0.0.1 - frank [10/Oct/2000:13:55:36 -0700] \"GET /x HTTP/1.0\" 200 2326";
    let result = parser.parse_line(line).unwrap();
    let expected: Vec<&[u8]> = vec![b"example.org", b"200"];
    assert_eq!(result, expected);
}

#[test]
fn combinedio_parses_trailing_counts() {
    let format = LogField::log_format_combinedio();
    let parser = LineParser::new(&format, Some(vec!["input".to_string(), "output".to_string()]));
    let line: &[u8] = b"127.0.0.1 - frank [10/Oct/2000:13:55:36 -0700] \"GET /x HTTP/1.0\" 200 2326 \"-\" \"UA\" 311 422";
    let result = parser.parse_line(line).unwrap();
    let expected: Vec<&[u8]> = vec![b"311", b"422"];
    assert_eq!(result, expected);
}

#[test]
fn error_strings_render_expected_and_actual() {
    assert_eq!(
        LineParser::get_error_string(ParserError::UnexpectedEndOfLine),
        "Unexpected end of line"
    );
    assert_eq!(
        LineParser::get_error_string(ParserError::UnexpectedCharacter('[', 'x', 7)),
        "Unexpected character: expected '[', got 'x'"
    );
}

#[test]
fn rejoining_extracted_fields_reconstructs_the_line() {
    // Word, bracket and quote boundaries are exact: re-inserting the
    // delimiters and single separating spaces around the extracted values
    // rebuilds the input byte for byte.
    let format = LogField::log_format_combined();
    let parser = LineParser::new(&format, None);
    let v = parser.parse_line(EXAMPLE).unwrap();
    let mut rebuilt: Vec<u8> = Vec::new();
    for (i, part) in v.iter().enumerate() {
        match i {
            0 | 1 | 2 => {
                rebuilt.extend_from_slice(part);
                rebuilt.push(b' ');
            }
            3 => {
                rebuilt.push(b'[');
                rebuilt.extend_from_slice(part);
                rebuilt.extend_from_slice(b"] \"");
            }
            4 | 5 => {
                rebuilt.extend_from_slice(part);
                rebuilt.push(b' ');
            }
            6 => {
                rebuilt.extend_from_slice(part);
                rebuilt.extend_from_slice(b"\" ");
            }
            7 | 8 => {
                rebuilt.extend_from_slice(part);
                rebuilt.push(b' ');
            }
            9 => {
                rebuilt.push(b'"');
                rebuilt.extend_from_slice(part);
                rebuilt.extend_from_slice(b"\" ");
            }
            _ => {
                rebuilt.push(b'"');
                rebuilt.extend_from_slice(part);
                rebuilt.push(b'"');
            }
        }
    }
    assert_eq!(rebuilt.as_slice(), EXAMPLE);
}
