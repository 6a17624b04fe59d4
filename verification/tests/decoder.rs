use sip_parser::decoder::Decoder;

fn assert_bytes(bytes: &[u8], expected: &str) {
    let mut decoder = Decoder::new();
    let mut chars = ['\0'; 1024];
    let count = decoder.get_chars(bytes, &mut chars);
    assert_eq!(count, expected.chars().count());
    for (i, c) in expected.chars().enumerate() {
        assert_eq!(c, chars[i]);
    }
}

fn assert_str(str: &str) {
    assert_bytes(str.as_bytes(), str);
}

fn decode_all(decoder: &mut Decoder, bytes: &[u8]) -> Vec<char> {
    let mut chars = vec!['\0'; bytes.len()];
    let count = decoder.get_chars(bytes, &mut chars);
    chars.truncate(count);
    chars
}

#[test]
fn empty() {
    assert_str("");
}

#[test]
fn single_char_single_byte() {
    assert_str("A");
}

#[test]
fn single_char_double_bytes() {
    assert_str("Â©");
}

#[test]
fn single_char_three_bytes() {
    assert_str("â‚¬");
}

#[test]
fn single_char_four_bytes() {
    assert_str("ğˆ");
}

#[test]
fn multiple_chars() {
    assert_str("Hâ‚¬llğˆ\n world!");
}

#[test]
fn partial_decode() {
    let mut decoder = Decoder::new();
    let mut chars = ['\0'; 1024];
    let c1 = decoder.get_chars(&[0xF0, 0x90, 0x8D], &mut chars);
    assert_eq!(c1, 0);
    let c2 = decoder.get_chars(&[0x88], &mut chars);
    assert_eq!(c2, 1);
    assert_eq!(chars[0], '\u{10348}');
}

#[test]
fn one_character_of_each_width() {
    assert_bytes(&[0x24], "$");
    assert_bytes(&[0xC2, 0xA9], "\u{A9}");
    assert_bytes(&[0xE2, 0x82, 0xAC], "\u{20AC}");
    assert_bytes(&[0xF0, 0x90, 0x8D, 0x88], "\u{10348}");
    assert_str("$\u{A9}\u{20AC}\u{10348}");
}

#[test]
fn two_byte_sequences_over_the_whole_range_of_leading_bytes() {
    assert_bytes(&[0xC2, 0x80], "\u{80}");
    assert_bytes(&[0xCF, 0xBF], "\u{3FF}");
    assert_bytes(&[0xD0, 0x96], "\u{416}");
    assert_bytes(&[0xDF, 0xBF], "\u{7FF}");
    assert_str("\u{416}\u{438}\u{432}\u{430}\u{433}\u{43E}");
}

#[test]
fn widest_scalar_values() {
    assert_bytes(&[0x7F], "\u{7F}");
    assert_bytes(&[0xEF, 0xBF, 0xBF], "\u{FFFF}");
    assert_bytes(&[0xF4, 0x8F, 0xBF, 0xBF], "\u{10FFFF}");
}

#[test]
fn every_scalar_value_survives_encoding_and_decoding() {
    let mut buffer = [0u8; 4];
    let mut chars = ['\0'; 4];
    for code in 0..=0x10FFFFu32 {
        if let Some(c) = char::from_u32(code) {
            let bytes = c.encode_utf8(&mut buffer).as_bytes();
            let mut decoder = Decoder::new();
            let count = decoder.get_chars(bytes, &mut chars);
            assert_eq!(count, 1);
            assert_eq!(chars[0], c);
        }
    }
}

#[test]
fn split_at_every_offset_gives_what_one_call_gives() {
    let text = "H\u{20AC}ll\u{10348}\n w\u{F6}rld! \u{416}";
    let bytes = text.as_bytes();
    let whole = decode_all(&mut Decoder::new(), bytes);
    assert_eq!(whole, text.chars().collect::<Vec<char>>());
    for cut in 0..=bytes.len() {
        let mut decoder = Decoder::new();
        let mut chars = decode_all(&mut decoder, &bytes[..cut]);
        chars.extend(decode_all(&mut decoder, &bytes[cut..]));
        assert_eq!(chars, whole);
    }
}

#[test]
fn split_of_malformed_bytes_gives_what_one_call_gives() {
    let bytes = [0x80, 0xE2, 0x41, 0xFF, 0xF0, 0x90, 0xC3, 0xED, 0xA0, 0x80, 0x42];
    let whole = decode_all(&mut Decoder::new(), &bytes);
    for cut in 0..=bytes.len() {
        let mut decoder = Decoder::new();
        let mut chars = decode_all(&mut decoder, &bytes[..cut]);
        chars.extend(decode_all(&mut decoder, &bytes[cut..]));
        assert_eq!(chars, whole);
    }
}

#[test]
fn stray_continuation_byte_is_a_character_of_its_own() {
    assert_bytes(&[0x80], "\u{80}");
    assert_bytes(&[0x80, 0x41], "\u{80}A");
    assert_bytes(&[0x80, 0xE2, 0x82, 0xAC, 0x42], "\u{80}\u{20AC}B");
    assert_bytes(&[0xBF, 0xF0, 0x90, 0x8D, 0x88], "\u{BF}\u{10348}");
}

#[test]
fn byte_past_the_leading_patterns_is_a_character_of_its_own() {
    assert_bytes(&[0xF8, 0x41], "\u{F8}A");
    assert_bytes(&[0xFF, 0xC2, 0xA9], "\u{FF}\u{A9}");
}

#[test]
fn continuation_bytes_are_taken_on_trust() {
    // After a leading byte the announced number of bytes is read, whatever they are.
    assert_bytes(&[0xC3, 0x41, 0x42], "\u{C1}B");
    assert_bytes(&[0xE2, 0x41, 0x42, 0x43], "\u{2042}C");
}

#[test]
fn code_point_that_is_no_scalar_value_is_replaced() {
    assert_bytes(&[0xED, 0xA0, 0x80], "\u{FFFD}");
    assert_bytes(&[0xED, 0xBF, 0xBF, 0x41], "\u{FFFD}A");
    assert_bytes(&[0xF7, 0xBF, 0xBF, 0xBF], "\u{FFFD}");
    assert_bytes(&[0xF4, 0x90, 0x80, 0x80, 0x41], "\u{FFFD}A");
}

#[test]
fn full_destination_stops_the_decoder() {
    let mut decoder = Decoder::new();
    let mut chars = ['\0'; 2];
    let count = decoder.get_chars(b"abcd", &mut chars);
    assert_eq!(count, 2);
    assert_eq!(chars, ['a', 'b']);
}

#[test]
fn full_destination_leaves_the_rest_for_a_later_call() {
    let bytes = "a\u{20AC}b".as_bytes();
    let mut decoder = Decoder::new();
    let mut chars = ['\0'; 2];
    // 'a' and the euro sign fill the destination after four bytes.
    assert_eq!(decoder.get_chars(bytes, &mut chars), 2);
    assert_eq!(chars, ['a', '\u{20AC}']);
    assert_eq!(decoder.get_chars(&bytes[4..], &mut chars), 1);
    assert_eq!(chars, ['b', '\u{20AC}']);
}

#[test]
fn empty_destination_reads_nothing() {
    let mut decoder = Decoder::new();
    let mut none: [char; 0] = [];
    assert_eq!(decoder.get_chars(&[0xE2], &mut none), 0);
    // The leading byte was not read: the next call starts a new sequence.
    let mut chars = ['\0'; 4];
    assert_eq!(decoder.get_chars(&[0x41], &mut chars), 1);
    assert_eq!(chars[0], 'A');
}

#[test]
fn what_lies_behind_the_output_is_left_alone() {
    let mut decoder = Decoder::new();
    let mut chars = ['x'; 4];
    assert_eq!(decoder.get_chars(b"ab", &mut chars), 2);
    assert_eq!(chars, ['a', 'b', 'x', 'x']);
}
