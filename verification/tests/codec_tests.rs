use codecs::DecodeError;
use codecs::Message;
use codecs::MyBytesCodec;

fn encode_to_vec(text: &str) -> Vec<u8> {
    let mut codec = MyBytesCodec;
    let mut buf: Vec<u8> = Vec::new();
    codec
        .encode(Message::new(text.to_string()), &mut buf)
        .unwrap();
    buf
}

fn decode_vec(mut buf: Vec<u8>) -> Result<Option<Message>, DecodeError> {
    let mut codec = MyBytesCodec;
    codec.decode(&mut buf)
}

#[test]
fn encode_exact_bytes() {
    assert_eq!(encode_to_vec("Hello my friend"), b"{\"text\":\"Hello my friend\"}".to_vec());
    assert_eq!(encode_to_vec(""), b"{\"text\":\"\"}".to_vec());
}

#[test]
fn encode_escapes_specials() {
    assert_eq!(encode_to_vec("a\"b"), b"{\"text\":\"a\\\"b\"}".to_vec());
    assert_eq!(encode_to_vec("a\\b"), b"{\"text\":\"a\\\\b\"}".to_vec());
    assert_eq!(encode_to_vec("a\nb\tc\rd"), b"{\"text\":\"a\\nb\\tc\\rd\"}".to_vec());
    assert_eq!(encode_to_vec("\u{8}\u{c}"), b"{\"text\":\"\\b\\f\"}".to_vec());
    assert_eq!(encode_to_vec("\u{1}\u{1f}"), b"{\"text\":\"\\u0001\\u001f\"}".to_vec());
}

#[test]
fn encode_appends_without_overwriting() {
    let mut codec = MyBytesCodec;
    let mut buf: Vec<u8> = b"unsent".to_vec();
    codec.encode(Message::new("x".to_string()), &mut buf).unwrap();
    assert_eq!(buf, b"unsent{\"text\":\"x\"}".to_vec());
}

#[test]
fn round_trip_plain() {
    for text in ["Hello my friend", "", "ok", "with spaces and 123"] {
        let buf = encode_to_vec(text);
        let m = decode_vec(buf).unwrap().unwrap();
        assert_eq!(m.text, text);
    }
}

#[test]
fn round_trip_escaped_and_unicode() {
    for text in [
        "quote \" backslash \\ slash /",
        "controls \u{0}\u{1}\u{b}\u{1f} named \n\r\t\u{8}\u{c}",
        "héllo wörld",
        "日本語のテキスト",
        "emoji \u{1f600} beyond the basic plane",
    ] {
        let buf = encode_to_vec(text);
        let m = decode_vec(buf).unwrap().unwrap();
        assert_eq!(m.text, text);
    }
}

#[test]
fn empty_buffer_is_no_message_not_error() {
    let mut codec = MyBytesCodec;
    let mut buf: Vec<u8> = Vec::new();
    let r = codec.decode(&mut buf);
    assert_eq!(r, Ok(None));
    assert!(buf.is_empty());
}

#[test]
fn malformed_bytes_fail_and_clear_buffer() {
    for bad in [
        b"this is not json".to_vec(),
        b"{".to_vec(),
        b"{}".to_vec(),
        b"{\"text\":}".to_vec(),
        b"{\"text\" \"a\"}".to_vec(),
        b"{\"other\":\"a\"}".to_vec(),
        b"{\"text\":\"unterminated}".to_vec(),
        b"{\"text\":\"a\"} trailing".to_vec(),
        b"{\"text\":\"a\"}{\"text\":\"b\"}".to_vec(),
        b"{\"text\":\"bad \\q escape\"}".to_vec(),
        b"{\"text\":\"\\u12g4\"}".to_vec(),
        b"{\"text\":\"\\ud800\"}".to_vec(),
        b"{\"text\":\"\x01\"}".to_vec(),
        vec![0xff, 0xfe],
    ] {
        let mut codec = MyBytesCodec;
        let mut buf = bad.clone();
        let r = codec.decode(&mut buf);
        assert_eq!(r, Err(DecodeError::InvalidData), "input: {:?}", bad);
        assert!(buf.is_empty(), "buffer retained bytes for input {:?}", bad);
    }
}

#[test]
fn invalid_utf8_in_string_is_rejected() {
    // A raw 0xff byte between the quotes parses as string content but is
    // not valid UTF-8.
    let mut buf: Vec<u8> = Vec::new();
    buf.extend_from_slice(b"{\"text\":\"");
    buf.push(0xff);
    buf.extend_from_slice(b"\"}");
    let r = decode_vec(buf);
    assert_eq!(r, Err(DecodeError::InvalidData));
}

#[test]
fn buffer_cleared_after_any_decode_of_nonempty_input() {
    for input in [b"{\"text\":\"a\"}".to_vec(), b"garbage".to_vec()] {
        let mut codec = MyBytesCodec;
        let mut buf = input.clone();
        let _ = codec.decode(&mut buf);
        assert!(buf.is_empty(), "buffer retained bytes for input {:?}", input);
    }
}

#[test]
fn decode_tolerates_whitespace() {
    let m = decode_vec(b"  {\t\"text\" \r\n:  \"hi\"\n}  ".to_vec()).unwrap().unwrap();
    assert_eq!(m.text, "hi");
}

#[test]
fn decode_escape_forms() {
    let m = decode_vec(b"{\"text\":\"\\u0041\\n\\/\\u00e9\\u65e5\"}".to_vec())
        .unwrap()
        .unwrap();
    assert_eq!(m.text, "A\n/\u{e9}\u{65e5}");
}

#[test]
fn new_ok_carries_ok_marker() {
    assert_eq!(Message::new_ok().text, "ok");
}

#[test]
fn encoded_bytes_are_json_readable_elsewhere() {
    for text in ["plain", "quote \" and \\ and \n", "unicode héllo \u{1f600}", "\u{1}\u{1f}"] {
        let buf = encode_to_vec(text);
        let value: serde_json::Value = serde_json::from_slice(&buf).unwrap();
        assert_eq!(value["text"].as_str().unwrap(), text);
    }
}

#[test]
fn json_written_elsewhere_decodes_here() {
    for text in ["plain", "quote \" and \\ and \n", "unicode héllo", "tab\tfeed\u{c}"] {
        let mut map = serde_json::Map::new();
        map.insert(
            "text".to_string(),
            serde_json::Value::String(text.to_string()),
        );
        let wire = serde_json::to_vec(&serde_json::Value::Object(map)).unwrap();
        let m = decode_vec(wire).unwrap().unwrap();
        assert_eq!(m.text, text);
    }
}
