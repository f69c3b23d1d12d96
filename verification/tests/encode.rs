use destream_json::de::Decoder;
use destream_json::en::stream::{EntryFramer, EntryPart, FrameAction, Framer, SourceEvent};
use destream_json::en::{
    encode_bool, encode_bytes, encode_i64, encode_null, encode_str, encode_u64, escape, ErrorKind,
    MapEncoder, Piece, SequenceEncoder,
};


fn chunks(source: &str, size: usize) -> Vec<Result<Vec<u8>, String>> {
    source.as_bytes().chunks(size).map(|c| Ok(c.to_vec())).collect()
}

/// Decodes `encoded` cut into chunks of every size from 1 to its length less
/// one, and checks the result and that nothing follows the value.
fn check_decode<T: PartialEq + std::fmt::Debug>(encoded: &str, expected: T, read: fn(&mut Decoder) -> T) {
    for i in 1..encoded.len() {
        let mut decoder = Decoder::from_stream(chunks(encoded, i));
        let actual = read(&mut decoder);
        assert_eq!(expected, actual);
        assert!(decoder.finish().is_ok());
    }
}

/// Reads a list whose items `item` reads.
fn read_list<T>(d: &mut Decoder, item: fn(&mut Decoder) -> T) -> Vec<T> {
    let mut out = Vec::new();
    let mut done = d.begin(b'[', b']').unwrap();
    while !done {
        d.expect_whitespace().unwrap();
        out.push(item(d));
        done = d.after_item(b']').unwrap();
    }
    out
}

/// Reads a map whose keys and values `key` and `value` read.
fn read_map<K, V>(d: &mut Decoder, key: fn(&mut Decoder) -> K, value: fn(&mut Decoder) -> V) -> Vec<(K, V)> {
    let mut out = Vec::new();
    let mut done = d.begin(b'{', b'}').unwrap();
    while !done {
        d.expect_whitespace().unwrap();
        let k = key(d);
        d.after_key().unwrap();
        let v = value(d);
        out.push((k, v));
        done = d.after_item(b'}').unwrap();
    }
    out
}

fn read_string(d: &mut Decoder) -> String {
    d.expect_whitespace().unwrap();
    d.parse_string().unwrap()
}

fn read_f64(d: &mut Decoder) -> f64 {
    let token = d.number_token().unwrap();
    let n = token.len();
    let value: f64 = std::str::from_utf8(&token).unwrap().parse().unwrap();
    d.consume(n);
    value
}

fn read_i32(d: &mut Decoder) -> i32 {
    d.parse_i32().unwrap()
}

fn render(pieces: Vec<Piece<Vec<u8>>>) -> String {
    let mut out = Vec::new();
    for piece in pieces {
        match piece {
            Piece::Delimiter(b) => out.push(b),
            Piece::Encoded(bytes) => out.extend(bytes),
        }
    }
    String::from_utf8(out).unwrap()
}

fn text(bytes: Vec<u8>) -> String {
    String::from_utf8(bytes).unwrap()
}

fn list(items: Vec<Vec<u8>>) -> String {
    let mut seq = SequenceEncoder::new(Some(items.len()));
    for item in items {
        seq.push(item);
    }
    render(seq.encode())
}

/// Runs a framed stream over elements already encoded, the way a streaming
/// encoder polls its source and forwards each element's chunks.
fn framed(mut framer: Framer, items: Vec<Vec<u8>>) -> String {
    let mut out = Vec::new();
    let mut source = items.into_iter();
    loop {
        let (event, item) = match source.next() {
            Some(item) => (SourceEvent::Item, Some(item)),
            None => (SourceEvent::Exhausted, None),
        };
        match framer.on_source(event) {
            FrameAction::Emit(b) => out.push(b),
            FrameAction::Fail => panic!("no failure was given"),
            FrameAction::End => break,
        }
        if let Some(item) = item {
            out.extend(item);
        }
    }
    assert!(framer.is_terminated());
    String::from_utf8(out).unwrap()
}

fn entry(key: Vec<u8>, value: Vec<u8>) -> Vec<u8> {
    let mut framer = EntryFramer::new();
    let mut out = Vec::new();
    loop {
        match framer.part() {
            EntryPart::Key => out.extend(key.iter().cloned()),
            EntryPart::Value => out.extend(value.iter().cloned()),
            EntryPart::Done => break,
        }
        match framer.part_ended() {
            FrameAction::Emit(b) => out.push(b),
            _ => {}
        }
    }
    out
}

#[test]
fn test_encode_primitives() {
    assert_eq!(text(encode_bool(true)), "true");
    assert_eq!(text(encode_bool(false)), "false");
    assert_eq!(text(encode_null()), "null");

    assert_eq!(text(encode_u64(1u8 as u64)), "1");
    assert_eq!(text(encode_u64(2u16 as u64)), "2");
    assert_eq!(text(encode_u64(4658_u32 as u64)), "4658");
    assert_eq!(text(encode_u64(2u64.pow(63))), 2u64.pow(63).to_string());
    assert_eq!(text(encode_u64(0)), "0");
    assert_eq!(text(encode_u64(u64::MAX)), "18446744073709551615");

    assert_eq!(text(encode_i64(-1i8 as i64)), "-1");
    assert_eq!(text(encode_i64(-32i16 as i64)), "-32");
    assert_eq!(text(encode_i64(53i32 as i64)), "53");
    assert_eq!(text(encode_i64((-2i64).pow(63))), (-2i64).pow(63).to_string());
    assert_eq!(text(encode_i64(0)), "0");

    assert_eq!(text(encode_str("hello world")), "\"hello world\"");
    assert_eq!(
        text(encode_str("string \"within\" string")),
        "\"string \\\"within\\\" string\""
    );
    assert_eq!(text(encode_str("ends in a \\")), "\"ends in a \\\\\"");
    assert_eq!(text(escape(b"a\"b\\c")), "a\\\"b\\\\c");
    assert_eq!(text(encode_str("\tworld")), "\"\tworld\"");
}

#[test]
#[allow(deprecated)]
fn test_bytes() {
    let utf8_str = "मकर संक्रान्ति";
    let encoded = encode_bytes(utf8_str.as_bytes());
    let mut decoder = Decoder::from_stream(vec![Ok(encoded)]);
    let text = decoder.parse_string().unwrap();
    let decoded = base64::decode(text).unwrap();
    assert_eq!(utf8_str, std::str::from_utf8(&decoded).unwrap());

    assert_eq!(String::from_utf8(encode_bytes(b"hello")).unwrap(), "\"aGVsbG8=\"");
    assert_eq!(String::from_utf8(encode_bytes(b"")).unwrap(), "\"\"");
}

#[test]
fn test_array() {
    let data = vec![true, true, false];
    let encoded = list(data.iter().map(|b| encode_bool(*b)).collect());
    assert_eq!(&encoded, "[true,true,false]");

    let mut decoder = Decoder::from_stream(vec![Ok(encoded.into_bytes())]);
    let mut decoded = Vec::new();
    let mut done = decoder.begin(b'[', b']').unwrap();
    while !done {
        decoder.expect_whitespace().unwrap();
        decoded.push(decoder.parse_bool().unwrap());
        done = decoder.after_item(b']').unwrap();
    }
    assert!(decoder.finish().is_ok());
    assert_eq!(data, decoded);
}

#[test]
fn test_seq() {
    check_decode("[1, 2, 3]", vec![1, 2, 3], |d| read_list(d, read_i32));
    check_decode("[1, 2, null]", (1, 2, ()), |d| {
        assert!(!d.begin(b'[', b']').unwrap());
        let a = d.parse_i32().unwrap();
        assert!(!d.after_item(b']').unwrap());
        let b = d.parse_i32().unwrap();
        assert!(!d.after_item(b']').unwrap());
        d.parse_unit().unwrap();
        assert!(d.after_item(b']').unwrap());
        (a, b, ())
    });
    check_decode(
        "\t[\r\n\rtrue,\r\n\t-1,\r\n\t\"hello world. \"\r\n]",
        (true, -1i16, "hello world. ".to_string()),
        |d| {
            assert!(!d.begin(b'[', b']').unwrap());
            d.expect_whitespace().unwrap();
            let a = d.parse_bool().unwrap();
            assert!(!d.after_item(b']').unwrap());
            d.expect_whitespace().unwrap();
            let b = d.parse_i16().unwrap();
            assert!(!d.after_item(b']').unwrap());
            d.expect_whitespace().unwrap();
            let c = read_string(d);
            assert!(d.after_item(b']').unwrap());
            (a, b, c)
        },
    );
    check_decode(" [ 1.23, 4e3, -3.45]\n", vec![1.23, 4e3, -3.45], |d| read_list(d, read_f64));
    check_decode(
        "[\"one\", \"two\", \"three\"]",
        std::collections::HashSet::<String>::from_iter(vec!["one", "two", "three"].into_iter().map(String::from)),
        |d| read_list(d, read_string).into_iter().collect(),
    );

    assert_eq!(framed(Framer::list(), vec![]), "[]");
    assert_eq!(list(vec![]), "[]");

    assert_eq!(list(vec![encode_u64(1), encode_u64(2), encode_u64(3)]), "[1,2,3]");
    assert_eq!(list(vec![encode_u64(1), encode_u64(2), encode_null()]), "[1,2,null]");
    assert_eq!(
        framed(Framer::list(), vec![encode_u64(1), encode_u64(2), encode_u64(3)]),
        "[1,2,3]"
    );

    let inner = |items: Vec<u64>| framed(Framer::list(), items.into_iter().map(encode_u64).collect()).into_bytes();
    assert_eq!(
        framed(Framer::list(), vec![inner(vec![1, 2, 3]), inner(vec![]), inner(vec![4])]),
        "[[1,2,3],[],[4]]"
    );

    assert_eq!(
        list(vec![encode_bool(true), encode_i64(-1), encode_str("hello world. ")]),
        "[true,-1,\"hello world. \"]"
    );
    assert_eq!(
        framed(Framer::list(), vec![encode_str("hello "), encode_str("\tworld")]),
        "[\"hello \",\"\tworld\"]"
    );
    assert_eq!(
        list(vec![encode_str("one"), encode_str("two"), encode_str("three")]),
        "[\"one\",\"two\",\"three\"]"
    );
}

#[test]
fn test_map() {
    check_decode(
        "\r\n\t{ \"k1\":\ttrue  , \"k2\": false\r\n}",
        std::collections::HashMap::<String, bool>::from_iter(vec![("k1".to_string(), true), ("k2".to_string(), false)]),
        |d| read_map(d, read_string, |d| d.parse_bool().unwrap()).into_iter().collect(),
    );
    check_decode(
        "\r\n\t{ -1:\ttrue, 2:null}",
        std::collections::BTreeMap::<i8, Option<bool>>::from_iter(vec![(-1, Some(true)), (2, None)]),
        |d| {
            read_map(d, |d| d.parse_i8().unwrap(), |d| {
                if d.parse_null().unwrap() {
                    None
                } else {
                    Some(d.parse_bool().unwrap())
                }
            })
            .into_iter()
            .collect()
        },
    );

    let mut map = MapEncoder::new(None);
    map.encode_key(encode_str("k1")).unwrap();
    map.encode_value(encode_bool(true)).unwrap();
    assert_eq!(render(map.end().unwrap()), "{\"k1\":true}");
    assert_eq!(
        framed(Framer::map(), vec![entry(encode_str("k1"), encode_bool(true))]),
        "{\"k1\":true}"
    );

    let mut map = MapEncoder::new(Some(2));
    map.encode_key(encode_i64(-1)).unwrap();
    map.encode_value(encode_bool(true)).unwrap();
    map.encode_key(encode_i64(2)).unwrap();
    map.encode_value(encode_null()).unwrap();
    assert_eq!(render(map.end().unwrap()), "{-1:true,2:null}");
    assert_eq!(
        framed(
            Framer::map(),
            vec![entry(encode_i64(-1), encode_bool(true)), entry(encode_i64(2), encode_null())]
        ),
        "{-1:true,2:null}"
    );
    assert_eq!(framed(Framer::map(), vec![]), "{}");
}

#[test]
fn test_map_protocol_errors() {
    let mut map: MapEncoder<Vec<u8>> = MapEncoder::new(None);
    assert!(map.check_key().is_ok());
    assert!(matches!(map.check_value().unwrap_err().kind(), ErrorKind::ValueWithoutKey));
    assert!(matches!(map.encode_value(encode_null()).unwrap_err().kind(), ErrorKind::ValueWithoutKey));
    map.encode_key(encode_str("a")).unwrap();
    assert!(matches!(map.check_key().unwrap_err().kind(), ErrorKind::KeyWithoutValue));
    assert!(matches!(map.encode_key(encode_str("b")).unwrap_err().kind(), ErrorKind::KeyWithoutValue));
    assert!(matches!(map.end().unwrap_err().kind(), ErrorKind::EndWithoutValue));
}

#[test]
fn test_framer_failures_and_end() {
    let mut framer = Framer::list();
    assert_eq!(framer.on_source(SourceEvent::Failed), FrameAction::Fail);
    assert_eq!(framer.on_source(SourceEvent::Item), FrameAction::Emit(b'['));
    assert_eq!(framer.on_source(SourceEvent::Failed), FrameAction::Fail);
    assert_eq!(framer.on_source(SourceEvent::Item), FrameAction::Emit(b','));
    assert!(!framer.is_terminated());
    assert_eq!(framer.on_source(SourceEvent::Exhausted), FrameAction::Emit(b']'));
    assert!(framer.is_terminated());
    assert_eq!(framer.on_source(SourceEvent::Exhausted), FrameAction::End);
    assert_eq!(framer.on_source(SourceEvent::Exhausted), FrameAction::End);

    let mut entry = EntryFramer::new();
    assert_eq!(entry.part(), EntryPart::Key);
    assert_eq!(entry.part_ended(), FrameAction::Emit(b':'));
    assert_eq!(entry.part(), EntryPart::Value);
    assert_eq!(entry.part_ended(), FrameAction::End);
    assert_eq!(entry.part(), EntryPart::Done);
}

#[test]
fn test_error_custom() {
    let e = destream_json::en::Error::custom("no NaN".to_string());
    assert!(matches!(e.kind(), ErrorKind::Custom(m) if m == "no NaN"));
}

#[test]
fn test_err() {
    let encoded = "{\"k1\": [1, 2, 3]}";
    let mut decoder = Decoder::from_stream(chunks(encoded, 5));
    assert!(!decoder.begin(b'{', b'}').unwrap());
    decoder.expect_whitespace().unwrap();
    let _key = read_string(&mut decoder);
    decoder.after_key().unwrap();
    decoder.expect_whitespace().unwrap();
    assert!(decoder.parse_string().is_err());
    let value = read_list(&mut decoder, |d| d.parse_i64().unwrap());
    assert_eq!(value, vec![1, 2, 3]);
    assert!(decoder.after_item(b'}').unwrap());
    assert!(decoder.finish().is_ok());

    let encoded = "\t[ 1,2, 3]";
    let mut decoder = Decoder::from_stream(chunks(encoded, 2));
    assert!(!decoder.begin(b'[', b']').unwrap());
    decoder.expect_whitespace().unwrap();
    decoder.expect_whitespace().unwrap();
    assert!(decoder.parse_string().is_err());
    decoder.expect_whitespace().unwrap();
    assert!(decoder.begin(b'[', b']').is_err());
    decoder.expect_whitespace().unwrap();
    assert_eq!(decoder.parse_i64().unwrap(), 1);
    assert!(!decoder.after_item(b']').unwrap());
    decoder.ignore_array_rest().unwrap();
    assert!(decoder.finish().is_ok());
}

#[test]
fn test_framer_empty_map_keeps_ending() {
    let mut framer = Framer::map();
    assert!(!framer.is_terminated());
    assert_eq!(framer.on_source(SourceEvent::Exhausted), FrameAction::Emit(b'{'));
    assert!(!framer.is_terminated());
    assert_eq!(framer.on_source(SourceEvent::Exhausted), FrameAction::Emit(b'}'));
    assert!(framer.is_terminated());
    for _ in 0..3 {
        assert_eq!(framer.on_source(SourceEvent::Exhausted), FrameAction::End);
        assert!(framer.is_terminated());
    }
}
