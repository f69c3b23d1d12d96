use destream_json::de::grammar::ValueKind;
use destream_json::de::{
    buffer_step, decode_hex_val, BufferAction, Decoder, ElementEvent, ErrorKind, SourceStream,
};

fn chunks(source: &str, size: usize) -> Vec<Result<Vec<u8>, String>> {
    source
        .as_bytes()
        .chunks(size)
        .map(|c| Ok(c.to_vec()))
        .collect()
}

fn whole(source: &str) -> Decoder {
    Decoder::from_stream(chunks(source, source.len().max(1)))
}

/// Decodes `encoded` cut into chunks of every size from 1 to its length less
/// one, and checks the result and that nothing follows the value.
fn check_decode<T: PartialEq + std::fmt::Debug>(
    encoded: &str,
    expected: T,
    read: fn(&mut Decoder) -> T,
) {
    for i in 1..encoded.len() {
        let mut decoder = Decoder::from_stream(chunks(encoded, i));
        let actual = read(&mut decoder);
        assert_eq!(expected, actual);
        assert!(decoder.finish().is_ok());
    }
}

fn read_string(d: &mut Decoder) -> String {
    d.expect_whitespace().unwrap();
    d.parse_string().unwrap()
}

fn read_f64(d: &mut Decoder) -> f64 {
    let token = d.number_token().unwrap();
    let n = token.len();
    let value: f64 = std::str::from_utf8(&token).unwrap().parse().unwrap();
    d.consume(n);
    value
}

fn read_f32(d: &mut Decoder) -> f32 {
    let token = d.number_token().unwrap();
    let n = token.len();
    let value: f32 = std::str::from_utf8(&token).unwrap().parse().unwrap();
    d.consume(n);
    value
}

#[test]
fn test_next_or_eof() {
    let s = "bar";
    for num_chunks in (1..s.len()).rev() {
        let mut decoder = Decoder::from_stream(chunks(s, num_chunks));
        for expected in s.as_bytes() {
            let actual = decoder.next_or_eof().unwrap();
            assert_eq!(&actual, expected);
        }
        let res = decoder.next_or_eof();
        assert!(res.is_err());
    }
}

#[test]
fn test_ignore_exactly() {
    let inputs = [("foo", "foo", true, 0), ("foobar", "foo", true, 3)];
    for input in inputs {
        let mut decoder = whole(input.0);
        let res = decoder.ignore_exactly(input.1.as_bytes());
        assert_eq!(res.is_ok(), input.2);
        assert_eq!(decoder.buffer_len(), input.3);
    }
}

#[test]
fn test_ignore_string() {
    let inputs = [
        ("\"foo\"bar", 3),
        ("\"test\"", 0),
        ("\"\"", 0),
        ("\"\\r\"", 0),
        ("\"hello\"world\"", 6),
        ("\"   hello\"", 0),
        ("\"hello   \"   ", 3),
        ("\"\\t\\n\\r\"", 0),
        ("\"\"test\\\"", 6),
        ("\"\\\\\\\\\"", 0),
    ];
    for input in inputs {
        let mut decoder = whole(input.0);
        decoder.ignore_string().unwrap();
        assert_eq!(decoder.buffer_len(), input.1);
    }
}

#[test]
fn test_ignore_number() {
    let inputs = [
        ("0", 0),
        ("123", 0),
        ("-123", 0),
        ("123.45", 0),
        ("-123.45", 0),
        ("0.0", 0),
        ("123, 45", 4),
    ];
    for input in inputs {
        let mut decoder = whole(input.0);
        decoder.ignore_value().unwrap();
        assert_eq!(decoder.buffer_len(), input.1);
    }
}

#[test]
fn test_ignore_array() {
    let cases = [
        ("[]", 0),
        ("[1]", 0),
        ("[ ] ", 1),
        ("[ 1 ] ", 1),
        ("[1,2]", 0),
        ("[],[]", 3),
        ("[\"foo\",\"bar\"]", 0),
    ];
    for (source, end_length) in cases {
        let mut decoder = whole(source);
        decoder.ignore_array().unwrap();
        assert_eq!(decoder.buffer_len(), end_length);
    }
}

#[test]
fn test_ignore_object() {
    let cases = [
        ("{}", 0),
        ("{},{}", 3),
        ("{\"k\":2, \"k\":3}", 0),
        ("{\"k\":1}", 0),
        ("{\"foo\":\"bar\"}", 0),
        ("{ } ", 1),
        ("{\"k\" : 2 , \" k \" : 3 }", 0),
        ("{ \" k \" : 1 } ", 1),
    ];
    for (source, end_length) in cases {
        let mut decoder = whole(source);
        decoder.ignore_object().unwrap();
        assert_eq!(decoder.buffer_len(), end_length);
    }
}

#[test]
fn test_json_primitives() {
    check_decode("null", (), |d| d.parse_unit().unwrap());
    check_decode("true", true, |d| d.parse_bool().unwrap());
    check_decode("false", false, |d| d.parse_bool().unwrap());

    check_decode("1", 1u8, |d| d.parse_u8().unwrap());
    check_decode(" 2 ", 2u16, |d| d.parse_u16().unwrap());
    check_decode("4658 ", 4658_u32, |d| d.parse_u32().unwrap());
    check_decode(&2u64.pow(63).to_string(), 2u64.pow(63), |d| d.parse_u64().unwrap());

    check_decode("-1", -1i8, |d| d.parse_i8().unwrap());
    check_decode("\t\n-32", -32i16, |d| d.parse_i16().unwrap());
    check_decode("53\t", 53i32, |d| d.parse_i32().unwrap());
    check_decode(&(-2i64).pow(63).to_string(), (-2i64).pow(63), |d| d.parse_i64().unwrap());

    check_decode("2e2", 2e2_f32, read_f32);
    check_decode("-2e-3", -2e-3_f64, read_f64);
    check_decode("3.14", 3.14_f32, read_f32);
    check_decode("-1.414e4", -1.414e4_f64, read_f64);

    check_decode("\t\r\n\" hello world \"", " hello world ".to_string(), read_string);

    let nested = "string \"within\" string".to_string();
    let expected = "\"string \\\"within\\\" string\"";
    check_decode(expected, nested, read_string);

    let terminal = "ends in a \\".to_string();
    let expected = "\"ends in a \\\\\"";
    check_decode(expected, terminal, read_string);
}

#[test]
fn test_value_kinds() {
    let cases = [
        ("\"s\"", ValueKind::String),
        (" [1]", ValueKind::Array),
        ("{}", ValueKind::Object),
        ("12 ", ValueKind::Integer),
        ("-4", ValueKind::Integer),
        ("1.5", ValueKind::Float),
        ("2e3", ValueKind::Float),
        ("2E3", ValueKind::Float),
        ("1e+3", ValueKind::Float),
        ("true", ValueKind::Bool),
        ("false", ValueKind::Bool),
        ("null", ValueKind::Null),
    ];
    for (source, kind) in cases {
        for size in 1..=source.len() {
            let mut decoder = Decoder::from_stream(chunks(source, size));
            assert_eq!(decoder.value_kind().unwrap(), kind, "{}", source);
        }
    }
    let mut decoder = whole("nope");
    match decoder.value_kind() {
        Err(e) => assert!(matches!(e.kind(), ErrorKind::InvalidAny(s) if s == "nope")),
        Ok(_) => panic!("a value kind for `nope`"),
    }
    let mut decoder = whole("  ");
    assert!(matches!(decoder.value_kind().unwrap_err().kind(), ErrorKind::UnexpectedEnd));
}

#[test]
fn test_value_kind_leaves_value() {
    let mut decoder = whole("  [1, 2]");
    assert_eq!(decoder.value_kind().unwrap(), ValueKind::Array);
    assert_eq!(decoder.buffer_len(), 6);
    decoder.ignore_value().unwrap();
    assert!(decoder.finish().is_ok());
}

#[test]
fn test_integer_errors() {
    let mut decoder = whole("256");
    match decoder.parse_u8() {
        Err(e) => assert!(matches!(e.kind(), ErrorKind::InvalidInteger(t) if t == b"256")),
        Ok(v) => panic!("read {}", v),
    }
    assert_eq!(decoder.buffer_len(), 3);
    assert_eq!(decoder.parse_u16().unwrap(), 256);

    let mut decoder = whole("-1");
    assert!(decoder.parse_u64().is_err());
    assert_eq!(decoder.parse_i64().unwrap(), -1);

    let mut decoder = whole("1.5");
    assert!(matches!(decoder.parse_i32().unwrap_err().kind(), ErrorKind::InvalidInteger(t) if t == b"1.5"));

    let mut decoder = whole("-9223372036854775809");
    assert!(decoder.parse_i64().is_err());

    let mut decoder = whole("18446744073709551616");
    assert!(decoder.parse_u64().is_err());

    let mut decoder = whole("007");
    assert_eq!(decoder.parse_u8().unwrap(), 7);

    let mut decoder = whole("- 1");
    assert!(decoder.parse_i8().is_err());
}

#[test]
fn test_string_errors() {
    let mut decoder = whole("x");
    match decoder.parse_string() {
        Err(e) => assert!(matches!(e.kind(), ErrorKind::UnexpectedDelimiter(b'x', b'"', s) if s == "x")),
        Ok(s) => panic!("read {}", s),
    }
    assert_eq!(decoder.buffer_len(), 1);

    let mut decoder = whole("\"open");
    assert!(matches!(decoder.parse_string().unwrap_err().kind(), ErrorKind::UnexpectedEnd));

    let mut decoder = Decoder::from_stream(vec![Ok(vec![b'"', 0xff, b'"'])]);
    assert!(matches!(decoder.parse_string().unwrap_err().kind(), ErrorKind::InvalidUtf8));
    assert_eq!(decoder.buffer_len(), 0);

    let mut decoder = whole("\"a\\\"b\" tail");
    assert_eq!(decoder.buffer_string().unwrap(), b"a\"b".to_vec());
    assert_eq!(decoder.buffer_len(), 5);
}

#[test]
fn test_bool_and_unit_errors() {
    let mut decoder = whole("  yes");
    assert!(matches!(decoder.parse_bool().unwrap_err().kind(), ErrorKind::InvalidBool(s) if s == "yes"));
    assert_eq!(decoder.buffer_len(), 3);

    let mut decoder = whole("nil");
    assert!(matches!(decoder.parse_unit().unwrap_err().kind(), ErrorKind::InvalidUnit(s) if s == "nil"));

    let mut decoder = whole(" ");
    assert!(matches!(decoder.parse_bool().unwrap_err().kind(), ErrorKind::UnexpectedEnd));

    let mut decoder = whole(" null, 1");
    assert!(decoder.parse_null().unwrap());
    let mut decoder = whole(" 1");
    assert!(!decoder.parse_null().unwrap());
    assert_eq!(decoder.buffer_len(), 1);
}

#[test]
fn test_skip_errors() {
    let mut decoder = whole("\"a\u{1}\"");
    assert!(matches!(decoder.ignore_string().unwrap_err().kind(), ErrorKind::ControlCharacter(1)));

    let mut decoder = whole("\"\\q\"");
    assert!(matches!(decoder.ignore_string().unwrap_err().kind(), ErrorKind::InvalidEscape));

    let mut decoder = whole("\"\\u12G4\"");
    assert!(matches!(decoder.ignore_string().unwrap_err().kind(), ErrorKind::InvalidHexEscape));

    let mut decoder = whole("\"\\u12aF\"");
    decoder.ignore_string().unwrap();
    assert_eq!(decoder.buffer_len(), 0);

    let mut decoder = whole("012");
    assert!(matches!(decoder.ignore_value().unwrap_err().kind(), ErrorKind::LeadingZero));

    let mut decoder = whole("-x");
    assert!(matches!(decoder.ignore_value().unwrap_err().kind(), ErrorKind::InvalidNumber(0)));

    let mut decoder = whole("-x]");
    assert!(matches!(decoder.ignore_value().unwrap_err().kind(), ErrorKind::InvalidNumber(b']')));

    let mut decoder = whole("1.e5");
    assert!(matches!(decoder.ignore_value().unwrap_err().kind(), ErrorKind::MissingFractionDigit));

    let mut decoder = whole("1e+");
    assert!(matches!(decoder.ignore_value().unwrap_err().kind(), ErrorKind::MissingExponentDigit(0)));

    let mut decoder = whole("1.5E-3]");
    decoder.ignore_value().unwrap();
    assert_eq!(decoder.buffer_len(), 1);

    let mut decoder = whole("tru");
    assert!(matches!(decoder.ignore_value().unwrap_err().kind(), ErrorKind::UnexpectedEnd));

    let mut decoder = whole("fals3");
    assert!(matches!(decoder.ignore_value().unwrap_err().kind(), ErrorKind::UnexpectedChar(b'3', b'e')));

    let mut decoder = whole("?");
    assert!(matches!(decoder.ignore_value().unwrap_err().kind(), ErrorKind::UnexpectedToken(b'?')));

    let mut decoder = whole("[1, 2");
    assert!(matches!(decoder.ignore_value().unwrap_err().kind(), ErrorKind::UnexpectedEnd));

    let mut decoder = whole("   ");
    decoder.ignore_value().unwrap();
    assert_eq!(decoder.buffer_len(), 0);
}

#[test]
fn test_stream_failure() {
    let source = vec![Ok(b"[1, ".to_vec()), Err("connection reset".to_string()), Ok(b"2]".to_vec())];
    let mut decoder = Decoder::from_stream(source);
    assert!(!decoder.begin(b'[', b']').unwrap());
    assert_eq!(decoder.parse_i64().unwrap(), 1);
    assert!(!decoder.after_item(b']').unwrap());
    match decoder.parse_i64() {
        Err(e) => assert!(matches!(e.kind(), ErrorKind::Source(m) if m == "connection reset")),
        Ok(v) => panic!("read {}", v),
    }
}

#[test]
fn test_trailing_content() {
    let mut decoder = whole("true false");
    assert!(decoder.parse_bool().unwrap());
    match decoder.finish() {
        Err(e) => assert!(matches!(e.kind(), ErrorKind::TrailingContent(s) if s == "false")),
        Ok(()) => panic!("no trailing content found"),
    }

    let mut decoder = whole("true \n");
    assert!(decoder.parse_bool().unwrap());
    assert!(decoder.finish().is_ok());
    assert!(decoder.is_terminated());
}

#[test]
fn test_framing_errors() {
    let mut decoder = whole("{\"a\" 1}");
    assert!(!decoder.begin(b'{', b'}').unwrap());
    assert_eq!(decoder.parse_string().unwrap(), "a");
    match decoder.after_key() {
        Err(e) => assert!(matches!(e.kind(), ErrorKind::UnexpectedDelimiter(b'1', b':', s) if s == "1}")),
        Ok(()) => panic!("a key without a colon"),
    }

    let mut decoder = whole("[1 2]");
    assert!(!decoder.begin(b'[', b']').unwrap());
    assert_eq!(decoder.parse_u8().unwrap(), 1);
    assert!(decoder.after_item(b']').is_err());

    let mut decoder = whole("  [ ]  ");
    assert!(decoder.begin(b'[', b']').unwrap());
    assert!(decoder.finish().is_ok());
}

#[test]
fn test_contents() {
    let mut decoder = whole("abcdef");
    assert_eq!(decoder.peek().unwrap(), Some(b'a'));
    assert_eq!(decoder.contents(3).unwrap(), "abc");
    assert_eq!(decoder.contents(100).unwrap(), "abcdef");
    let mut decoder = Decoder::from_stream(vec![Ok(vec![0xc3, 0x28])]);
    assert_eq!(decoder.peek_or_null().unwrap(), 0xc3);
    assert!(matches!(decoder.contents(2).unwrap_err().kind(), ErrorKind::InvalidUtf8));
}

#[test]
fn test_decode_hex_val() {
    assert_eq!(decode_hex_val(b'0'), Some(0));
    assert_eq!(decode_hex_val(b'9'), Some(9));
    assert_eq!(decode_hex_val(b'a'), Some(10));
    assert_eq!(decode_hex_val(b'F'), Some(15));
    assert_eq!(decode_hex_val(b'g'), None);
    let mut decoder = whole("00fF");
    assert_eq!(decoder.decode_hex_escape().unwrap(), 0x00ff);
}

#[test]
fn test_map_value_after_end() {
    assert!(Decoder::check_map_value(false).is_ok());
    assert!(matches!(Decoder::check_map_value(true).unwrap_err().kind(), ErrorKind::MapEnded));
}

#[test]
fn test_array_error() {
    let mut decoder = whole("[1, x]");
    assert!(!decoder.begin(b'[', b']').unwrap());
    assert_eq!(decoder.parse_u8().unwrap(), 1);
    assert!(!decoder.after_item(b']').unwrap());
    let cause = decoder.parse_u8().unwrap_err();
    let e = decoder.array_error(format!("{:?}", cause.kind()));
    assert!(matches!(e.kind(), ErrorKind::ArrayElement(_, Some(s)) if s == "x]"));

    let mut decoder = Decoder::from_stream(vec![Ok(vec![0xff])]);
    assert_eq!(decoder.peek().unwrap(), Some(0xff));
    let e = decoder.array_error("cause".to_string());
    assert!(matches!(e.kind(), ErrorKind::ArrayElement(m, None) if m == "cause"));
}

#[test]
fn test_chunks_as_they_arrive() {
    let mut decoder = Decoder::open_stream();
    decoder.push_chunk(Ok(b" tr".to_vec()));
    let before = decoder.clone();
    assert!(matches!(decoder.parse_bool().unwrap_err().kind(), ErrorKind::NeedMore));

    let mut decoder = before;
    decoder.push_chunk(Ok(b"ue ".to_vec()));
    assert!(decoder.parse_bool().unwrap());

    let before = decoder.clone();
    assert!(matches!(decoder.finish().unwrap_err().kind(), ErrorKind::NeedMore));
    let mut decoder = before;
    decoder.close_source();
    assert!(decoder.finish().is_ok());
    assert!(decoder.is_terminated());

    let mut decoder = Decoder::open_stream();
    decoder.push_chunk(Ok(b"[1,".to_vec()));
    decoder.push_chunk(Err("gone".to_string()));
    decoder.push_chunk(Ok(b"2]".to_vec()));
    assert!(!decoder.begin(b'[', b']').unwrap());
    assert_eq!(decoder.parse_i8().unwrap(), 1);
    assert!(!decoder.after_item(b']').unwrap());
    assert!(matches!(decoder.parse_i8().unwrap_err().kind(), ErrorKind::Source(m) if m == "gone"));
}

#[test]
fn test_sources() {
    let source = SourceStream::from_chunks(vec![Ok(b"[]".to_vec())]);
    assert!(!source.is_terminated());
    let mut decoder = Decoder::from(source);
    assert!(decoder.begin(b'[', b']').unwrap());
    assert!(decoder.finish().is_ok());
    assert!(decoder.is_terminated());

    let mut decoder = Decoder::from(SourceStream::open());
    assert!(matches!(decoder.peek().unwrap_err().kind(), ErrorKind::NeedMore));
    let mut decoder = Decoder::from(SourceStream::open());
    decoder.close_source();
    assert_eq!(decoder.peek().unwrap(), None);
    assert!(decoder.is_terminated());
}

#[test]
fn test_string_escapes_decoded() {
    let mut decoder = whole("\"a\\nb\"");
    assert_eq!(decoder.buffer_string().unwrap(), vec![b'a', b'\n', b'b']);
    assert_eq!(decoder.buffer_len(), 0);

    let cases: [(&str, &str); 8] = [
        ("\"\\\"\\\\\\/\"", "\"\\/"),
        ("\"\\b\\f\\n\\r\\t\"", "\u{8}\u{c}\n\r\t"),
        ("\"caf\\u00e9\"", "café"),
        ("\"\\u0041\\u00DF\"", "Aß"),
        ("\"\\u20ac\"", "€"),
        ("\"\\ud83d\\ude00\"", "😀"),
        ("\"\\u0022\"", "\""),
        ("\"raw\ttab\"", "raw\ttab"),
    ];
    for (source, expected) in cases {
        for size in 1..=source.len() {
            let mut decoder = Decoder::from_stream(chunks(source, size));
            assert_eq!(decoder.parse_string().unwrap(), expected, "{}", source);
            assert!(decoder.finish().is_ok());
        }
    }
}

#[test]
fn test_string_escape_errors() {
    let mut decoder = whole("\"\\q\" 1");
    assert!(matches!(decoder.buffer_string().unwrap_err().kind(), ErrorKind::InvalidEscape));
    assert_eq!(decoder.buffer_len(), 2);

    let mut decoder = whole("\"\\u12G4\"");
    assert!(matches!(decoder.buffer_string().unwrap_err().kind(), ErrorKind::InvalidHexEscape));

    let mut decoder = whole("\"\\u12\"");
    assert!(matches!(decoder.buffer_string().unwrap_err().kind(), ErrorKind::InvalidHexEscape));

    let mut decoder = whole("\"\\udc00\"");
    assert!(matches!(decoder.buffer_string().unwrap_err().kind(), ErrorKind::LoneSurrogate));

    let mut decoder = whole("\"\\ud800x\"");
    assert!(matches!(decoder.buffer_string().unwrap_err().kind(), ErrorKind::LoneSurrogate));

    let mut decoder = whole("\"\\ud800\\u0041\"");
    assert!(matches!(decoder.buffer_string().unwrap_err().kind(), ErrorKind::LoneSurrogate));

    let mut decoder = whole("\"\\ud800\\uzzzz\"");
    assert!(matches!(decoder.buffer_string().unwrap_err().kind(), ErrorKind::InvalidHexEscape));
}

#[test]
fn test_read_after_stream_ended() {
    let mut decoder = whole("\"a\"");
    assert!(!decoder.parse_null().unwrap());
    assert!(!decoder.is_terminated());
    assert_eq!(decoder.buffer_string().unwrap(), b"a".to_vec());
    assert!(decoder.finish().is_ok());
    assert!(decoder.is_terminated());

    let mut decoder = whole("1.5");
    assert!(!decoder.parse_null().unwrap());
    assert_eq!(decoder.value_kind().unwrap(), ValueKind::Float);

    let mut decoder = whole("1 x");
    assert!(!decoder.parse_null().unwrap());
    assert_eq!(decoder.parse_u8().unwrap(), 1);
    match decoder.finish() {
        Err(e) => assert!(matches!(e.kind(), ErrorKind::TrailingContent(s) if s == "x")),
        Ok(()) => panic!("trailing content accepted"),
    }
}

#[test]
fn test_signed_exponent_token() {
    let mut decoder = whole("1e+3,");
    assert_eq!(decoder.number_token().unwrap(), b"1e+3".to_vec());
    let mut decoder = whole("-1.5E-3]");
    assert_eq!(decoder.number_token().unwrap(), b"-1.5E-3".to_vec());
    let mut decoder = whole("+5");
    assert!(matches!(decoder.parse_i64().unwrap_err().kind(), ErrorKind::InvalidInteger(t) if t == b"+5"));
}

#[test]
fn test_is_terminated_needs_empty_buffer() {
    let mut decoder = whole("ab");
    assert_eq!(decoder.peek().unwrap(), Some(b'a'));
    assert!(!decoder.is_terminated());
    assert_eq!(decoder.contents(1).unwrap(), "a");
    decoder.consume(2);
    assert_eq!(decoder.peek().unwrap(), None);
    assert!(decoder.is_terminated());
}

#[test]
fn test_buffer_step() {
    assert_eq!(buffer_step(0, 3, ElementEvent::Element), BufferAction::Store(0));
    assert_eq!(buffer_step(2, 3, ElementEvent::Element), BufferAction::Store(2));
    assert_eq!(buffer_step(1, 3, ElementEvent::Ended), BufferAction::Stop(1));
    assert_eq!(buffer_step(1, 3, ElementEvent::Failed), BufferAction::Fail);
}

#[test]
fn test_skip_rest_of_containers() {
    for size in 1..=12 {
        let mut decoder = Decoder::from_stream(chunks("[1, [2, 3], {\"a\": 4}] ", size));
        assert!(!decoder.begin(b'[', b']').unwrap());
        assert_eq!(decoder.parse_u8().unwrap(), 1);
        assert!(!decoder.after_item(b']').unwrap());
        decoder.ignore_array_rest().unwrap();
        assert!(decoder.finish().is_ok());

        let mut decoder = Decoder::from_stream(chunks("{\"a\": [1, 2], \"b\": null} ", size));
        assert!(!decoder.begin(b'{', b'}').unwrap());
        assert_eq!(decoder.parse_string().unwrap(), "a");
        decoder.after_key().unwrap();
        decoder.ignore_object_value_rest().unwrap();
        assert!(decoder.finish().is_ok());

        let mut decoder = Decoder::from_stream(chunks("{\"a\": 1, \"b\": {}}", size));
        assert!(!decoder.begin(b'{', b'}').unwrap());
        decoder.ignore_object_rest().unwrap();
        assert!(decoder.finish().is_ok());
    }
    let mut decoder = whole("[1, 2");
    assert!(!decoder.begin(b'[', b']').unwrap());
    assert!(matches!(decoder.ignore_array_rest().unwrap_err().kind(), ErrorKind::UnexpectedEnd));
}

#[test]
fn test_plus_starts_no_value() {
    let mut decoder = whole("+5");
    assert!(matches!(decoder.value_kind().unwrap_err().kind(), ErrorKind::InvalidAny(s) if s == "+5"));
}

#[test]
fn test_snippet_does_not_depend_on_chunking() {
    let source = "  yes and more";
    for size in 1..=source.len() {
        let mut decoder = Decoder::from_stream(chunks(source, size));
        match decoder.parse_bool() {
            Err(e) => assert!(matches!(e.kind(), ErrorKind::InvalidBool(s) if s == "yes and more")),
            Ok(b) => panic!("read {}", b),
        }
        let mut decoder = Decoder::from_stream(chunks(source, size));
        assert!(matches!(decoder.value_kind().unwrap_err().kind(), ErrorKind::InvalidAny(s) if s == "yes and more"));
    }
}
