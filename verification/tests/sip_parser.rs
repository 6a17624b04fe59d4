use sip_parser::sip_parser::{
    parse_bytes, parse_text, split_field, ParseError, Request, SipParser,
};
use sip_parser::text_reader::TextReader;
use std::io::BufReader;

fn parse(text: &str) -> Request {
    let reader = TextReader::new(BufReader::new(text.as_bytes()));
    let mut parser = SipParser::new(reader);
    parser.parse_request()
}

fn try_parse(text: &str) -> Result<Request, ParseError> {
    let reader = TextReader::new(BufReader::new(text.as_bytes()));
    let mut parser = SipParser::new(reader);
    parser.try_parse_request()
}

fn field(line: &str) -> Option<(String, String)> {
    let chars: Vec<char> = line.chars().collect();
    split_field(&chars)
}

#[test]
fn parse_basic_invite() {
    let text = r#"INVITE sip:+14155552222@example.pstn.twilio.com SIP/2.0
        Via: SIP/2.0/UDP 192.168.10.10:5060;branch=z9hG4bK776asdhds
        Max-Forwards: 70
        To: "Bob" <sip:+14155552222@example.pstn.twilio.com>
        From: "Alice" <sip:+14155551111@example.pstn.twilio.com>;tag=1
        Call-ID: a84b4c76e66710
        CSeq: 1 INVITE
        Contact: "Alice" <sip:+14155551111@192.168.10.10:5060>
        Diversion: "Sales" <sip:+14155550000@example.pstn.twilio.com>
        P-Asserted-Identity: "Alice" <sip:+14155551111@example.pstn.twilio.com>
        Content-Length: 0
         
       "#;
    let reader = TextReader::new(BufReader::new(text.as_bytes()));
    let mut parser = SipParser::new(reader);
    let request = parser.parse_request();
    assert_eq!(request.method(), "INVITE");
    assert_eq!(request.path(), "sip:+14155552222@example.pstn.twilio.com");
    assert_eq!(request.version(), "SIP/2.0");
    assert_eq!(request.header("Via").unwrap(), "SIP/2.0/UDP 192.168.10.10:5060;branch=z9hG4bK776asdhds");
    assert_eq!(request.header("Max-Forwards").unwrap(), "70");
    assert_eq!(request.header("To").unwrap(), r#""Bob" <sip:+14155552222@example.pstn.twilio.com>"#);
    assert_eq!(request.header("From").unwrap(), r#""Alice" <sip:+14155551111@example.pstn.twilio.com>;tag=1"#);
    assert_eq!(request.header("Call-ID").unwrap(), "a84b4c76e66710");
    assert_eq!(request.header("CSeq").unwrap(), "1 INVITE");
    assert_eq!(request.header("Contact").unwrap(), r#""Alice" <sip:+14155551111@192.168.10.10:5060>"#);
    assert_eq!(request.header("Diversion").unwrap(), r#""Sales" <sip:+14155550000@example.pstn.twilio.com>"#);
    assert_eq!(request.header("P-Asserted-Identity").unwrap(), r#""Alice" <sip:+14155551111@example.pstn.twilio.com>"#);
    assert_eq!(request.header("Content-Length").unwrap(), "0");
    assert_eq!(request.body(), "");
}

#[test]
fn parse_invite_with_one_header_and_a_body() {
    let request = parse("INVITE sip:alice@example.com SIP/2.0\nTo: Bob\n\nbodytext");
    assert_eq!(request.method(), "INVITE");
    assert_eq!(request.path(), "sip:alice@example.com");
    assert_eq!(request.version(), "SIP/2.0");
    assert_eq!(request.header("To"), Some("Bob"));
    assert_eq!(request.header_count(), 1);
    assert_eq!(request.body(), "bodytext");
}

#[test]
fn duplicate_header_keeps_the_last_value() {
    let request = parse("GET / V\nA: 1\nB: 2\nA: 3\nA: 4\n\n");
    assert_eq!(request.header("A"), Some("4"));
    assert_eq!(request.header("B"), Some("2"));
    assert_eq!(request.header_count(), 2);
}

#[test]
fn header_names_are_compared_case_sensitively() {
    let request = parse("GET / V\nto: lower\nTo: upper\n\n");
    assert_eq!(request.header("to"), Some("lower"));
    assert_eq!(request.header("To"), Some("upper"));
    assert_eq!(request.header("TO"), None);
    assert_eq!(request.header_count(), 2);
}

#[test]
fn header_is_split_at_its_first_colon() {
    let request = parse("GET / V\nVia : a:b:c \n:\nEmpty:\n\n");
    assert_eq!(request.header("Via"), Some("a:b:c"));
    assert_eq!(request.header(""), Some(""));
    assert_eq!(request.header("Empty"), Some(""));
    assert_eq!(request.header_count(), 3);
}

#[test]
fn header_lines_may_end_with_carriage_return_line_feed() {
    let request = parse("INVITE sip:bob@example.com SIP/2.0\r\nTo: Bob\r\nFrom: Alice\r\n\r\nbody\r\n");
    assert_eq!(request.header("To"), Some("Bob"));
    assert_eq!(request.header("From"), Some("Alice"));
    assert_eq!(request.body(), "body\r\n");
}

#[test]
fn whitespace_only_line_ends_the_headers() {
    let request = parse("GET / V\nA: 1\n \t \nB: 2\n");
    assert_eq!(request.header("A"), Some("1"));
    assert_eq!(request.header("B"), None);
    assert_eq!(request.body(), "B: 2\n");
}

#[test]
fn body_is_taken_verbatim_behind_its_leading_whitespace() {
    let request = parse("GET / V\nA: 1\n\n \n\t line one \n\nline two\n ");
    assert_eq!(request.body(), "line one \n\nline two\n ");
}

#[test]
fn short_input_gives_empty_tokens() {
    let request = parse("");
    assert_eq!(request.method(), "");
    assert_eq!(request.path(), "");
    assert_eq!(request.version(), "");
    assert_eq!(request.header_count(), 0);
    assert_eq!(request.body(), "");
    let request = parse("  OPTIONS  ");
    assert_eq!(request.method(), "OPTIONS");
    assert_eq!(request.path(), "");
    assert_eq!(request.version(), "");
    assert_eq!(request.body(), "");
    let request = parse("A B");
    assert_eq!(request.method(), "A");
    assert_eq!(request.path(), "B");
    assert_eq!(request.version(), "");
}

#[test]
fn stream_that_ends_in_the_headers_has_no_body() {
    let request = parse("GET / V\nA: 1\nB: 2");
    assert_eq!(request.header("A"), Some("1"));
    assert_eq!(request.header("B"), Some("2"));
    assert_eq!(request.body(), "");
}

#[test]
fn tokens_end_at_whitespace_of_any_script() {
    // An ideographic space ends the method, but only ASCII whitespace is skipped
    // before the next token: target and version are empty, and the header block
    // starts at the ideographic space.
    let request = parse("GET\u{3000}: x\n\n");
    assert_eq!(request.method(), "GET");
    assert_eq!(request.path(), "");
    assert_eq!(request.version(), "");
    assert_eq!(request.header(""), Some("x"));
    assert_eq!(try_parse("GET\u{3000}/ V\n\n").err(), Some(ParseError::MissingColon));
}

#[test]
fn tokens_may_hold_characters_of_every_width() {
    let request = parse("M\u{E9}thod sip:\u{20AC}@\u{10348} V/\u{416}\nK\u{E9}y: v\u{20AC}l\n\nb\u{10348}dy");
    assert_eq!(request.method(), "M\u{E9}thod");
    assert_eq!(request.path(), "sip:\u{20AC}@\u{10348}");
    assert_eq!(request.version(), "V/\u{416}");
    assert_eq!(request.header("K\u{E9}y"), Some("v\u{20AC}l"));
    assert_eq!(request.body(), "b\u{10348}dy");
}

#[test]
fn header_line_without_a_colon_is_an_error() {
    assert_eq!(try_parse("GET / V\nno colon here\n\n").err(), Some(ParseError::MissingColon));
    assert_eq!(try_parse("GET / V\nA: 1\nbroken\nB: 2\n\n").err(), Some(ParseError::MissingColon));
    // The blank line behind the request line is skipped as whitespace, so the
    // body line is read as a header.
    assert_eq!(try_parse("GET / V\n\nbody").err(), Some(ParseError::MissingColon));
}

#[test]
fn parsing_stops_behind_the_line_without_a_colon() {
    let reader = TextReader::new(BufReader::new("GET / V\nA: 1\nbroken\nB: 2\n".as_bytes()));
    let mut parser = SipParser::new(reader);
    assert!(parser.try_parse_request().is_err());
    // What is left is read as a request of its own.
    let request = parser.try_parse_request().unwrap();
    assert_eq!(request.method(), "B:");
    assert_eq!(request.path(), "2");
}

#[test]
fn try_parse_request_reads_a_well_formed_request() {
    let request = try_parse("INVITE sip:alice@example.com SIP/2.0\nTo: Bob\n\nbodytext").unwrap();
    assert_eq!(request.method(), "INVITE");
    assert_eq!(request.header("To"), Some("Bob"));
    assert_eq!(request.body(), "bodytext");
}

#[test]
fn parsed_request_leaves_nothing_in_the_stream() {
    let reader = TextReader::new(BufReader::new("GET / V\nA: 1\n\nbody".as_bytes()));
    let mut parser = SipParser::new(reader);
    let first = parser.parse_request();
    assert_eq!(first.body(), "body");
    let second = parser.parse_request();
    assert_eq!(second.method(), "");
    assert_eq!(second.header_count(), 0);
    assert_eq!(second.body(), "");
}

#[test]
fn to_string_writes_request_line_headers_and_body() {
    let request = parse("  INVITE   sip:alice@example.com \t SIP/2.0 \n  To :  Bob  \nFrom:Alice\n\n  bodytext\n");
    assert_eq!(
        request.to_string(),
        "INVITE sip:alice@example.com SIP/2.0\nTo: Bob\nFrom: Alice\nbodytext\n"
    );
}

#[test]
fn to_string_writes_each_name_once_where_it_first_came() {
    let request = parse("GET / V\nA: 1\nB: 2\nA: 3\n\nend");
    assert_eq!(request.to_string(), "GET / V\nA: 3\nB: 2\nend");
}

#[test]
fn to_string_of_an_empty_request() {
    assert_eq!(parse("").to_string(), "  \n");
}

#[test]
fn split_field_trims_name_and_value() {
    assert_eq!(field("To: Bob"), Some(("To".to_string(), "Bob".to_string())));
    assert_eq!(field(" \tA b \u{A0}:\u{2003} c : d \u{3000}"), Some(("A b".to_string(), "c : d".to_string())));
    assert_eq!(field(":"), Some((String::new(), String::new())));
    assert_eq!(field("no colon"), None);
    assert_eq!(field(""), None);
}

#[test]
fn parse_text_reads_a_request_from_a_string() {
    let request = parse_text("INVITE sip:alice@example.com SIP/2.0\nTo: Bob\n\nbodytext").unwrap();
    assert_eq!(request.method(), "INVITE");
    assert_eq!(request.path(), "sip:alice@example.com");
    assert_eq!(request.version(), "SIP/2.0");
    assert_eq!(request.header("To"), Some("Bob"));
    assert_eq!(request.body(), "bodytext");
    assert_eq!(parse_text("GET / V\nbroken\n").err(), Some(ParseError::MissingColon));
}

#[test]
fn parse_bytes_decodes_what_it_reads() {
    let request = parse_bytes(b"GET /\xE2\x82\xAC V\nA\x80: \xF0\x90\x8D\x88\n\n\xFF").unwrap();
    assert_eq!(request.path(), "/\u{20AC}");
    assert_eq!(request.header("A\u{80}"), Some("\u{10348}"));
    assert_eq!(request.body(), "\u{FF}");
    assert_eq!(parse_bytes(b"GET / V\n\xE2\x82\xAC\n").err(), Some(ParseError::MissingColon));
}
