use destream_json::de::Decoder;
use destream_json::en::{encode_bool, encode_i64, encode_null, encode_str, encode_u64};

fn decoder_of(bytes: Vec<u8>, size: usize) -> Decoder {
    Decoder::from_stream(bytes.chunks(size.max(1)).map(|c| Ok(c.to_vec())).collect())
}

#[test]
fn test_string_roundtrip() {
    let texts = ["", "plain", "\"", "\\", "a\\\"b", "\\\\\"\"", "tab\there", "मकर संक्रान्ति", "end\\"];
    for s in texts {
        let mut bytes = encode_str(s);
        let n = bytes.len();
        bytes.extend(b", rest");
        for size in 1..=bytes.len() {
            let mut decoder = decoder_of(bytes.clone(), size);
            assert_eq!(decoder.parse_string().unwrap(), s);
            assert_eq!(decoder.contents(100).unwrap(), ", rest"[..decoder.buffer_len().min(6)].to_string());
        }
        let mut decoder = decoder_of(bytes.clone(), bytes.len());
        assert_eq!(decoder.buffer_string().unwrap(), s.as_bytes());
        assert_eq!(decoder.buffer_len(), bytes.len() - n);
    }
}

#[test]
fn test_integer_roundtrip() {
    let signed = [i64::MIN, -9, -1, 0, 1, 10, 99, 100, i64::MAX];
    for x in signed {
        let mut bytes = encode_i64(x);
        bytes.push(b']');
        let mut decoder = decoder_of(bytes.clone(), 3);
        assert_eq!(decoder.parse_i64().unwrap(), x);
        assert_eq!(decoder.buffer_len(), 1);
    }
    let unsigned = [0u64, 7, 255, 256, 65535, 65536, u64::MAX];
    for x in unsigned {
        let bytes = encode_u64(x);
        let mut decoder = decoder_of(bytes.clone(), 2);
        assert_eq!(decoder.parse_u64().unwrap(), x);
        assert!(decoder.finish().is_ok());
    }
    for x in [i8::MIN, -1, 0, i8::MAX] {
        let mut decoder = decoder_of(encode_i64(x as i64), 1);
        assert_eq!(decoder.parse_i8().unwrap(), x);
    }
    for x in [i16::MIN, i16::MAX] {
        let mut decoder = decoder_of(encode_i64(x as i64), 1);
        assert_eq!(decoder.parse_i16().unwrap(), x);
    }
    for x in [i32::MIN, i32::MAX] {
        let mut decoder = decoder_of(encode_i64(x as i64), 1);
        assert_eq!(decoder.parse_i32().unwrap(), x);
    }
    for x in [u8::MAX as u64, u16::MAX as u64, u32::MAX as u64] {
        let mut decoder = decoder_of(encode_u64(x), 1);
        assert_eq!(decoder.parse_u64().unwrap(), x);
    }
    let mut decoder = decoder_of(encode_u64(u8::MAX as u64), 1);
    assert_eq!(decoder.parse_u8().unwrap(), u8::MAX);
    let mut decoder = decoder_of(encode_u64(u16::MAX as u64), 1);
    assert_eq!(decoder.parse_u16().unwrap(), u16::MAX);
    let mut decoder = decoder_of(encode_u64(u32::MAX as u64), 1);
    assert_eq!(decoder.parse_u32().unwrap(), u32::MAX);
}

#[test]
fn test_bool_null_roundtrip() {
    for b in [true, false] {
        let mut bytes = encode_bool(b);
        bytes.extend(b"}");
        let mut decoder = decoder_of(bytes, 2);
        assert_eq!(decoder.parse_bool().unwrap(), b);
        assert_eq!(decoder.next_or_eof().unwrap(), b'}');
        assert!(decoder.next_or_eof().is_err());
    }
    let mut decoder = decoder_of(encode_null(), 1);
    decoder.parse_unit().unwrap();
    assert!(decoder.finish().is_ok());
}

#[test]
fn test_chunking_does_not_matter() {
    let document = " {\"a\": [1, -2, \"x\\\"y\"], \"b\" : true} ";
    for size in 1..=document.len() {
        let mut decoder = decoder_of(document.as_bytes().to_vec(), size);
        assert!(!decoder.begin(b'{', b'}').unwrap());
        let key = decoder.parse_string().unwrap();
        decoder.after_key().unwrap();
        let token = decoder.number_token().unwrap();
        assert!(token.is_empty());
        decoder.ignore_value().unwrap();
        assert!(!decoder.after_item(b'}').unwrap());
        decoder.expect_whitespace().unwrap();
        let key2 = decoder.buffer_string().unwrap();
        decoder.after_key().unwrap();
        let value = decoder.parse_bool().unwrap();
        assert!(decoder.after_item(b'}').unwrap());
        assert!(decoder.finish().is_ok());
        assert_eq!(key, "a");
        assert!(value);
        assert_eq!(key2, b"b".to_vec());
    }
}

#[test]
fn test_mismatch_consumes_only_whitespace() {
    let mut decoder = decoder_of(b"  \"text\"".to_vec(), 3);
    assert!(decoder.parse_i64().is_err());
    assert_eq!(decoder.contents(10).unwrap(), "\"");
    assert!(decoder.parse_bool().is_err());
    assert!(decoder.parse_unit().is_err());
    assert!(decoder.begin(b'[', b']').is_err());
    assert_eq!(decoder.parse_string().unwrap(), "text");

    let mut decoder = decoder_of(b" 5".to_vec(), 1);
    decoder.expect_whitespace().unwrap();
    assert!(decoder.buffer_string().is_err());
    assert_eq!(decoder.buffer_len(), 1);
    assert_eq!(decoder.parse_u8().unwrap(), 5);
}

#[test]
fn test_chunks_without_failures() {
    let one = Decoder::from_stream(vec![Ok(b"[true]".to_vec())]);
    let many = Decoder::from_stream(vec![Ok(b"[t".to_vec()), Ok(vec![]), Ok(b"rue]".to_vec())]);
    for mut decoder in [one, many] {
        assert!(!decoder.begin(b'[', b']').unwrap());
        assert!(decoder.parse_bool().unwrap());
        assert!(decoder.after_item(b']').unwrap());
        assert!(decoder.finish().is_ok());
    }
}

#[test]
fn test_skip_encoded_string() {
    let texts = ["", "plain", "\"", "\\", "a\\\"b", "\\\\\"\"", "मकर संक्रान्ति", "end\\"];
    for s in texts {
        let mut bytes = encode_str(s);
        bytes.extend(b":1");
        let mut decoder = decoder_of(bytes.clone(), bytes.len());
        decoder.ignore_string().unwrap();
        assert_eq!(decoder.buffer_len(), 2);
        assert_eq!(decoder.next_or_eof().unwrap(), b':');
    }
}

#[test]
fn test_framing_roundtrip() {
    let mut decoder = decoder_of(b"[]x".to_vec(), 3);
    assert!(decoder.begin(b'[', b']').unwrap());
    assert_eq!(decoder.buffer_len(), 1);

    let mut decoder = decoder_of(b"{1".to_vec(), 2);
    assert!(!decoder.begin(b'{', b'}').unwrap());
    assert_eq!(decoder.buffer_len(), 1);

    let mut decoder = decoder_of(b":1".to_vec(), 2);
    decoder.after_key().unwrap();
    assert_eq!(decoder.buffer_len(), 1);

    let mut decoder = decoder_of(b",1".to_vec(), 2);
    assert!(!decoder.after_item(b']').unwrap());
    assert_eq!(decoder.buffer_len(), 1);

    let mut decoder = decoder_of(b"]1".to_vec(), 2);
    assert!(decoder.after_item(b']').unwrap());
    assert_eq!(decoder.buffer_len(), 1);
}

/// Runs `op` on what has arrived; where it needs more, hands the decoder the
/// next chunk (or closes its stream) and runs it again from where it started.
fn run<T>(
    decoder: &mut Decoder,
    chunks: &mut std::vec::IntoIter<Vec<u8>>,
    op: impl Fn(&mut Decoder) -> Result<T, destream_json::de::Error>,
) -> Result<T, destream_json::de::Error> {
    loop {
        let before = decoder.clone();
        match op(decoder) {
            Err(e) if matches!(e.kind(), destream_json::de::ErrorKind::NeedMore) => {
                *decoder = before;
                match chunks.next() {
                    Some(chunk) => decoder.push_chunk(Ok(chunk)),
                    None => decoder.close_source(),
                }
            }
            result => return result,
        }
    }
}

#[test]
fn test_streaming_matches_whole_input() {
    let document = "\t[ \"a\\\"b\" , -17, true, null, 1.5e3, {\"k\": [false]} ]  ";
    for size in 1..=document.len() {
        let pieces: Vec<Vec<u8>> = document.as_bytes().chunks(size).map(|c| c.to_vec()).collect();
        let mut chunks = pieces.into_iter();
        let mut decoder = Decoder::open_stream();
        assert!(!run(&mut decoder, &mut chunks, |d| d.begin(b'[', b']')).unwrap());
        assert_eq!(run(&mut decoder, &mut chunks, |d| d.parse_string()).unwrap(), "a\"b");
        assert!(!run(&mut decoder, &mut chunks, |d| d.after_item(b']')).unwrap());
        assert_eq!(run(&mut decoder, &mut chunks, |d| d.parse_i32()).unwrap(), -17);
        assert!(!run(&mut decoder, &mut chunks, |d| d.after_item(b']')).unwrap());
        assert!(run(&mut decoder, &mut chunks, |d| d.parse_bool()).unwrap());
        assert!(!run(&mut decoder, &mut chunks, |d| d.after_item(b']')).unwrap());
        assert!(run(&mut decoder, &mut chunks, |d| d.parse_null()).unwrap());
        assert!(!run(&mut decoder, &mut chunks, |d| d.after_item(b']')).unwrap());
        let token = run(&mut decoder, &mut chunks, |d| d.number_token()).unwrap();
        assert_eq!(token, b"1.5e3".to_vec());
        decoder.consume(token.len());
        assert!(!run(&mut decoder, &mut chunks, |d| d.after_item(b']')).unwrap());
        run(&mut decoder, &mut chunks, |d| d.ignore_value()).unwrap();
        assert!(run(&mut decoder, &mut chunks, |d| d.after_item(b']')).unwrap());
        run(&mut decoder, &mut chunks, |d| d.finish()).unwrap();
        assert!(decoder.is_terminated());
    }
}

#[test]
fn test_string_roundtrip_after_stream_ended() {
    for s in ["a", "x\"y", "back\\slash", "€"] {
        let bytes = encode_str(s);
        let mut decoder = decoder_of(bytes.clone(), bytes.len());
        assert!(!decoder.parse_null().unwrap());
        assert_eq!(decoder.parse_string().unwrap(), s);
        assert!(decoder.finish().is_ok());
        assert!(decoder.is_terminated());
    }
}

#[test]
fn test_skip_one_complete_value() {
    let values = [
        "null",
        "true",
        "-0.5e+10",
        "12E3",
        "\"a\\n\\u00e9\\\\\"",
        "[1, [\"x\", {}], -2.25]",
        "{\"k\": [true, null], \"\\u0041\": {\"z\": 0}}",
    ];
    for v in values {
        let text = format!("  {},tail", v);
        for size in 1..=text.len() {
            let mut decoder = decoder_of(text.clone().into_bytes(), size);
            decoder.ignore_value().unwrap();
            assert_eq!(decoder.contents(10).unwrap(), ",tail"[..decoder.buffer_len().min(5)].to_string());
        }
    }
}

#[test]
fn test_list_and_map_roundtrip() {
    let strings = ["a", "b\"c", "€"];
    let mut text = b"[".to_vec();
    for (i, s) in strings.iter().enumerate() {
        if i > 0 {
            text.push(b',');
        }
        text.extend(encode_str(s));
    }
    text.extend(b"] ");
    for size in 1..=text.len() {
        let mut decoder = decoder_of(text.clone(), size);
        let mut read = Vec::new();
        let mut done = decoder.begin(b'[', b']').unwrap();
        while !done {
            read.push(decoder.parse_string().unwrap());
            done = decoder.after_item(b']').unwrap();
        }
        assert_eq!(read, strings);
        assert!(decoder.finish().is_ok());
    }

    let mut text = b"{".to_vec();
    text.extend(encode_str("one"));
    text.push(b':');
    text.extend(encode_i64(-1));
    text.push(b',');
    text.extend(encode_str("two"));
    text.push(b':');
    text.extend(encode_u64(2));
    text.push(b'}');
    for size in 1..=text.len() {
        let mut decoder = decoder_of(text.clone(), size);
        let mut read = Vec::new();
        let mut done = decoder.begin(b'{', b'}').unwrap();
        while !done {
            let key = decoder.parse_string().unwrap();
            decoder.after_key().unwrap();
            read.push((key, decoder.parse_i64().unwrap()));
            done = decoder.after_item(b'}').unwrap();
        }
        assert_eq!(read, vec![("one".to_string(), -1), ("two".to_string(), 2)]);
        assert!(decoder.finish().is_ok());
    }
}
