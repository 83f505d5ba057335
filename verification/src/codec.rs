//! The codec: a pure transformation between a [`Message`] and a byte buffer.
//!
//! The wire format is a small JSON document, `{"text":"..."}`, carried as
//! UTF-8 bytes with no length prefix or delimiter. [`MyBytesCodec::encode`]
//! appends the document for a message to an output buffer;
//! [`MyBytesCodec::decode`] interprets the entire current buffer contents
//! as one document and clears the buffer whether or not that succeeds, so
//! no partial or malformed bytes are ever retained for reprocessing.
//!
//! The grammar is stated by the spec functions [`parse_msg`] (what the
//! parser accepts, and the text bytes it extracts) and [`json_bytes`]
//! (the exact bytes the encoder emits). [`lemma_codec_round_trip`] proves
//! that parsing the encoder's output recovers the original text.

use vstd::prelude::*;
use vstd::utf8::decode_utf8;
use vstd::utf8::encode_scalar;
use vstd::utf8::encode_utf8;
use vstd::utf8::encode_utf8_decode_utf8;
use vstd::utf8::encode_utf8_valid_utf8;
use vstd::utf8::valid_utf8;
use crate::message::Message;

verus! {

/// Decoding failures: bytes were present but did not form one well-formed
/// serialized message.
#[derive(Debug, Clone, Copy, PartialEq, Eq)]
pub enum DecodeError {
    /// The buffered bytes cannot be deserialized into a `Message`.
    InvalidData,
}

/// Encoding failures: the message could not be serialized.
#[derive(Debug, Clone, Copy, PartialEq, Eq)]
pub enum EncodeError {
    /// Serialization of the message failed.
    SerializationFailed,
}

/// The encoder and decoder for messages, shared by both ends of a
/// connection. It is stateless: all state lives in the caller's buffer.
pub struct MyBytesCodec;

/* The wire grammar, at the specification level. */

/// JSON insignificant whitespace: space, tab, line feed, carriage return.
pub open spec fn is_ws(b: u8) -> bool {
    b == 0x20u8 || b == 0x09u8 || b == 0x0au8 || b == 0x0du8
}

/// Drops leading whitespace bytes.
pub open spec fn skip_ws(s: Seq<u8>) -> Seq<u8>
    decreases s.len(),
{
    if s.len() > 0 && is_ws(s[0]) {
        skip_ws(s.drop_first())
    } else {
        s
    }
}

/// The byte produced by a two-character escape `\e`, if `e` names one.
pub open spec fn simple_escape(e: u8) -> Option<u8> {
    if e == 0x22u8 {
        Some(0x22u8)  // \" quotation mark
    } else if e == 0x5cu8 {
        Some(0x5cu8)  // \\ reverse solidus
    } else if e == 0x2fu8 {
        Some(0x2fu8)  // \/ solidus
    } else if e == 0x62u8 {
        Some(0x08u8)  // \b backspace
    } else if e == 0x66u8 {
        Some(0x0cu8)  // \f form feed
    } else if e == 0x6eu8 {
        Some(0x0au8)  // \n line feed
    } else if e == 0x72u8 {
        Some(0x0du8)  // \r carriage return
    } else if e == 0x74u8 {
        Some(0x09u8)  // \t tab
    } else {
        None
    }
}

/// True of ASCII hexadecimal digits, upper or lower case.
pub open spec fn is_hex_digit(b: u8) -> bool {
    (0x30u8 <= b && b <= 0x39u8) || (0x41u8 <= b && b <= 0x46u8) || (0x61u8 <= b && b <= 0x66u8)
}

/// The numeric value of an ASCII hexadecimal digit.
pub open spec fn hex_value(b: u8) -> u32
    recommends
        is_hex_digit(b),
{
    if 0x30u8 <= b && b <= 0x39u8 {
        (b - 0x30u8) as u32
    } else if 0x41u8 <= b && b <= 0x46u8 {
        (b - 0x41u8 + 10) as u32
    } else {
        (b - 0x61u8 + 10) as u32
    }
}

/// The code point named by four hexadecimal digits, as in `\uXXXX`.
pub open spec fn hex4(a: u8, b: u8, c: u8, d: u8) -> u32 {
    (hex_value(a) * 0x1000 + hex_value(b) * 0x100 + hex_value(c) * 0x10 + hex_value(d)) as u32
}

/// Parses the body of a JSON string up to and including its closing quote.
///
/// On success, yields the unescaped text bytes and the input that remains
/// after the closing quote. Escapes are the two-character ones and
/// `\uXXXX` for code points outside the surrogate range, whose bytes are
/// their UTF-8 encoding. Raw control bytes and malformed escapes are
/// rejected.
pub open spec fn parse_string_body(s: Seq<u8>) -> Option<(Seq<u8>, Seq<u8>)>
    decreases s.len(),
{
    if s.len() == 0 {
        None
    } else if s[0] == 0x22u8 {
        Some((Seq::empty(), s.drop_first()))
    } else if s[0] == 0x5cu8 {
        if s.len() >= 2 && simple_escape(s[1]) is Some {
            match parse_string_body(s.skip(2)) {
                Some(p) => Some((seq![simple_escape(s[1]).unwrap()] + p.0, p.1)),
                None => None,
            }
        } else if s.len() >= 6 && s[1] == 0x75u8 && is_hex_digit(s[2]) && is_hex_digit(s[3])
            && is_hex_digit(s[4]) && is_hex_digit(s[5]) {
            let cp = hex4(s[2], s[3], s[4], s[5]);
            if 0xd800u32 <= cp && cp <= 0xdfffu32 {
                None
            } else {
                match parse_string_body(s.skip(6)) {
                    Some(p) => Some((encode_scalar(cp) + p.0, p.1)),
                    None => None,
                }
            }
        } else {
            None
        }
    } else if s[0] < 0x20u8 {
        None
    } else {
        match parse_string_body(s.drop_first()) {
            Some(p) => Some((seq![s[0]] + p.0, p.1)),
            None => None,
        }
    }
}

/// The six bytes `"text"`: the one field name the message object carries.
pub open spec fn text_key() -> Seq<u8> {
    seq![0x22u8, 0x74u8, 0x65u8, 0x78u8, 0x74u8, 0x22u8]
}

/// Parses an entire buffer as one serialized message.
///
/// The buffer must hold exactly one JSON object with the single field
/// `"text"` whose value is a JSON string, with optional whitespace around
/// the punctuation and nothing after the closing brace. On success,
/// yields the unescaped bytes of the text value.
pub open spec fn parse_msg(s: Seq<u8>) -> Option<Seq<u8>> {
    let s1 = skip_ws(s);
    if s1.len() > 0 && s1[0] == 0x7bu8 {
        let s2 = skip_ws(s1.drop_first());
        if s2.len() >= 6 && s2.subrange(0, 6) == text_key() {
            let s3 = skip_ws(s2.skip(6));
            if s3.len() > 0 && s3[0] == 0x3au8 {
                let s4 = skip_ws(s3.drop_first());
                if s4.len() > 0 && s4[0] == 0x22u8 {
                    match parse_string_body(s4.drop_first()) {
                        Some(p) => {
                            let s5 = skip_ws(p.1);
                            if s5.len() > 0 && s5[0] == 0x7du8 && skip_ws(s5.drop_first()).len()
                                == 0 {
                                Some(p.0)
                            } else {
                                None
                            }
                        },
                        None => None,
                    }
                } else {
                    None
                }
            } else {
                None
            }
        } else {
            None
        }
    } else {
        None
    }
}

/// The ASCII character for a hexadecimal digit value, lower case.
pub open spec fn hex_digit_char(v: u8) -> u8
    recommends
        v < 16,
{
    if v < 10 {
        (0x30u8 + v) as u8
    } else {
        (0x57u8 + v) as u8
    }
}

/// The bytes the encoder emits for one text byte.
///
/// The quotation mark, the reverse solidus and the named control bytes
/// get their two-character escapes; other control bytes get `\u00XX`;
/// every other byte stands for itself.
pub open spec fn escape_byte(b: u8) -> Seq<u8> {
    if b == 0x22u8 {
        seq![0x5cu8, 0x22u8]
    } else if b == 0x5cu8 {
        seq![0x5cu8, 0x5cu8]
    } else if b == 0x08u8 {
        seq![0x5cu8, 0x62u8]
    } else if b == 0x09u8 {
        seq![0x5cu8, 0x74u8]
    } else if b == 0x0au8 {
        seq![0x5cu8, 0x6eu8]
    } else if b == 0x0cu8 {
        seq![0x5cu8, 0x66u8]
    } else if b == 0x0du8 {
        seq![0x5cu8, 0x72u8]
    } else if b < 0x20u8 {
        seq![
            0x5cu8,
            0x75u8,
            0x30u8,
            0x30u8,
            if b >= 0x10u8 { 0x31u8 } else { 0x30u8 },
            hex_digit_char(if b >= 0x10u8 { (b - 0x10u8) as u8 } else { b }),
        ]
    } else {
        seq![b]
    }
}

/// The escaped form of a whole text, byte by byte.
pub open spec fn escape(s: Seq<u8>) -> Seq<u8>
    decreases s.len(),
{
    if s.len() == 0 {
        Seq::empty()
    } else {
        escape_byte(s[0]) + escape(s.drop_first())
    }
}

/// The nine bytes `{"text":"` that open every encoded message.
pub open spec fn json_prefix() -> Seq<u8> {
    seq![0x7bu8, 0x22u8, 0x74u8, 0x65u8, 0x78u8, 0x74u8, 0x22u8, 0x3au8, 0x22u8]
}

/// The two bytes `"}` that close every encoded message.
pub open spec fn json_suffix() -> Seq<u8> {
    seq![0x22u8, 0x7du8]
}

/// The exact bytes the encoder emits for a message with the given text.
pub open spec fn json_bytes(text: Seq<char>) -> Seq<u8> {
    json_prefix() + escape(encode_utf8(text)) + json_suffix()
}

/* Trusted boundary to the standard library. */

/// Relies on `String::from_utf8`: it succeeds exactly when the bytes are
/// a valid UTF-8 encoding, and then returns the string those bytes
/// encode, in the sense of vstd's UTF-8 model.
#[verifier::external_body]
fn string_from_utf8(bytes: Vec<u8>) -> (r: Option<String>)
    ensures
        match r {
            Some(s) => valid_utf8(bytes@) && s@ == decode_utf8(bytes@),
            None => !valid_utf8(bytes@),
        },
{
    String::from_utf8(bytes).ok()
}

/* The executable codec. */

impl MyBytesCodec {
    /// Serializes `data` and appends the resulting bytes to `buf`,
    /// never overwriting bytes already there. Serialization of a text
    /// message cannot fail, so the result is always `Ok`.
    pub fn encode(&mut self, data: Message, buf: &mut Vec<u8>) -> (r: Result<(), EncodeError>)
        ensures
            r is Ok,
            final(buf)@ == old(buf)@ + json_bytes(data.text@),
    {
        let bytes: &[u8] = data.text.as_str().as_bytes();
        buf.push(0x7b);
        buf.push(0x22);
        buf.push(0x74);
        buf.push(0x65);
        buf.push(0x78);
        buf.push(0x74);
        buf.push(0x22);
        buf.push(0x3a);
        buf.push(0x22);
        assert(buf@ =~= old(buf)@ + json_prefix());
        let mut i: usize = 0;
        while i < bytes.len()
            invariant
                i <= bytes@.len(),
                bytes@ == encode_utf8(data.text@),
                buf@ == old(buf)@ + json_prefix() + escape(bytes@.take(i as int)),
            decreases bytes@.len() - i,
        {
            let c = bytes[i];
            if c == 0x22 {
                buf.push(0x5c);
                buf.push(0x22);
            } else if c == 0x5c {
                buf.push(0x5c);
                buf.push(0x5c);
            } else if c == 0x08 {
                buf.push(0x5c);
                buf.push(0x62);
            } else if c == 0x09 {
                buf.push(0x5c);
                buf.push(0x74);
            } else if c == 0x0a {
                buf.push(0x5c);
                buf.push(0x6e);
            } else if c == 0x0c {
                buf.push(0x5c);
                buf.push(0x66);
            } else if c == 0x0d {
                buf.push(0x5c);
                buf.push(0x72);
            } else if c < 0x20 {
                buf.push(0x5c);
                buf.push(0x75);
                buf.push(0x30);
                buf.push(0x30);
                if c >= 0x10 {
                    buf.push(0x31);
                } else {
                    buf.push(0x30);
                }
                let lo: u8 = if c >= 0x10 {
                    c - 0x10
                } else {
                    c
                };
                if lo < 10 {
                    buf.push(0x30 + lo);
                } else {
                    buf.push(0x57 + lo);
                }
            } else {
                buf.push(c);
            }
            proof {
                assert(bytes@.take(i as int + 1) =~= bytes@.take(i as int).push(c));
                lemma_escape_snoc(bytes@.take(i as int), c);
                assert(buf@ =~= old(buf)@ + json_prefix() + escape(bytes@.take(i as int + 1)));
            }
            i = i + 1;
        }
        assert(bytes@.take(bytes@.len() as int) =~= bytes@);
        buf.push(0x22);
        buf.push(0x7d);
        assert(buf@ =~= old(buf)@ + json_bytes(data.text@));
        Ok(())
    }

    /// Attempts to interpret the entire current contents of `buf` as one
    /// serialized message.
    ///
    /// An empty buffer means "no message yet" and is not an error. A
    /// non-empty buffer is consumed whether or not it parses: on success
    /// the message is returned, on malformed bytes the call fails with
    /// [`DecodeError::InvalidData`]; either way the buffer is left empty,
    /// so no bytes are retained for reprocessing.
    pub fn decode(&mut self, buf: &mut Vec<u8>) -> (r: Result<Option<Message>, DecodeError>)
        ensures
            final(buf)@.len() == 0,
            old(buf)@.len() == 0 ==> r == Ok::<Option<Message>, DecodeError>(None),
            old(buf)@.len() > 0 ==> match r {
                Ok(opt) => match opt {
                    Some(m) => parse_msg(old(buf)@) matches Some(c) && valid_utf8(c) && m.text@
                        == decode_utf8(c),
                    None => false,
                },
                Err(e) => e == DecodeError::InvalidData && match parse_msg(old(buf)@) {
                    Some(c) => !valid_utf8(c),
                    None => true,
                },
            },
    {
        if buf.len() == 0 {
            return Ok(None);
        }
        let parsed = parse_msg_exec(buf);
        buf.clear();
        match parsed {
            Some(content) => match string_from_utf8(content) {
                Some(s) => Ok(Some(Message { text: s })),
                None => Err(DecodeError::InvalidData),
            },
            None => Err(DecodeError::InvalidData),
        }
    }
}

/// Advances past whitespace: returns the first position at or after
/// `start` whose suffix carries no leading whitespace.
fn skip_ws_exec(b: &Vec<u8>, start: usize) -> (j: usize)
    requires
        start <= b@.len(),
    ensures
        start <= j <= b@.len(),
        b@.skip(j as int) == skip_ws(b@.skip(start as int)),
{
    let mut i: usize = start;
    while i < b.len() && (b[i] == 0x20 || b[i] == 0x09 || b[i] == 0x0a || b[i] == 0x0d)
        invariant
            start <= i <= b@.len(),
            skip_ws(b@.skip(start as int)) == skip_ws(b@.skip(i as int)),
        decreases b@.len() - i,
    {
        proof {
            assert(b@.skip(i as int)[0] == b@[i as int]);
            assert(b@.skip(i as int).drop_first() =~= b@.skip(i as int + 1));
        }
        i = i + 1;
    }
    proof {
        if i < b@.len() {
            assert(b@.skip(i as int)[0] == b@[i as int]);
        }
        assert(skip_ws(b@.skip(i as int)) == b@.skip(i as int));
    }
    i
}

/// Parses the body of a JSON string starting at `start` (just after the
/// opening quote), implementing [`parse_string_body`]. On success returns
/// the unescaped bytes and the position just after the closing quote.
fn parse_body_exec(b: &Vec<u8>, start: usize) -> (r: Option<(Vec<u8>, usize)>)
    requires
        start <= b@.len(),
    ensures
        match r {
            Some(p) => start <= p.1 <= b@.len() && parse_string_body(b@.skip(start as int))
                == Some((p.0@, b@.skip(p.1 as int))),
            None => parse_string_body(b@.skip(start as int)) is None,
        },
{
    let mut i: usize = start;
    let mut acc: Vec<u8> = Vec::new();
    loop
        invariant
            start <= i <= b@.len(),
            match parse_string_body(b@.skip(i as int)) {
                Some(p) => parse_string_body(b@.skip(start as int)) == Some(
                    (acc@ + p.0, p.1),
                ),
                None => parse_string_body(b@.skip(start as int)) is None,
            },
        decreases b@.len() - i,
    {
        let ghost s = b@.skip(i as int);
        if i >= b.len() {
            return None;
        }
        let c = b[i];
        proof {
            assert(s[0] == b@[i as int]);
        }
        if c == 0x22 {
            proof {
                assert(s.drop_first() =~= b@.skip(i as int + 1));
                assert(acc@ + Seq::<u8>::empty() =~= acc@);
            }
            return Some((acc, i + 1));
        } else if c == 0x5c {
            if b.len() - i < 2 {
                return None;
            }
            let e = b[i + 1];
            proof {
                assert(s[1] == b@[i as int + 1]);
                assert(s.len() >= 2);
            }
            let esc: Option<u8> = if e == 0x22 {
                Some(0x22)
            } else if e == 0x5c {
                Some(0x5c)
            } else if e == 0x2f {
                Some(0x2f)
            } else if e == 0x62 {
                Some(0x08)
            } else if e == 0x66 {
                Some(0x0c)
            } else if e == 0x6e {
                Some(0x0a)
            } else if e == 0x72 {
                Some(0x0d)
            } else if e == 0x74 {
                Some(0x09)
            } else {
                None
            };
            if let Some(u) = esc {
                let ghost acc0 = acc@;
                acc.push(u);
                proof {
                    assert(s.skip(2) =~= b@.skip(i as int + 2));
                    lemma_step_compose(b@, start as int, i as int, acc0, seq![u], i as int + 2);
                }
                i = i + 2;
            } else if e == 0x75 {
                if b.len() - i < 6 {
                    return None;
                }
                let h0 = b[i + 2];
                let h1 = b[i + 3];
                let h2 = b[i + 4];
                let h3 = b[i + 5];
                proof {
                    assert(s[2] == b@[i as int + 2]);
                    assert(s[3] == b@[i as int + 3]);
                    assert(s[4] == b@[i as int + 4]);
                    assert(s[5] == b@[i as int + 5]);
                    assert(s.len() >= 6);
                }
                let v0 = hex_val_exec(h0);
                let v1 = hex_val_exec(h1);
                let v2 = hex_val_exec(h2);
                let v3 = hex_val_exec(h3);
                if v0 >= 16 || v1 >= 16 || v2 >= 16 || v3 >= 16 {
                    return None;
                }
                let cp: u32 = v0 * 0x1000 + v1 * 0x100 + v2 * 0x10 + v3;
                assert(cp == hex4(h0, h1, h2, h3));
                if 0xd800 <= cp && cp <= 0xdfff {
                    return None;
                }
                let ghost acc0 = acc@;
                if cp < 0x80 {
                    acc.push((cp & 0x7f) as u8);
                } else if cp < 0x800 {
                    acc.push(0xc0u8 | (((cp >> 6u32) & 0x1f) as u8));
                    acc.push(0x80u8 | ((cp & 0x3f) as u8));
                } else {
                    acc.push(0xe0u8 | (((cp >> 12u32) & 0x0f) as u8));
                    acc.push(0x80u8 | (((cp >> 6u32) & 0x3f) as u8));
                    acc.push(0x80u8 | ((cp & 0x3f) as u8));
                }
                proof {
                    assert(acc@ =~= acc0 + encode_scalar(cp));
                    assert(s.skip(6) =~= b@.skip(i as int + 6));
                    lemma_step_compose(
                        b@,
                        start as int,
                        i as int,
                        acc0,
                        encode_scalar(cp),
                        i as int + 6,
                    );
                }
                i = i + 6;
            } else {
                return None;
            }
        } else if c < 0x20 {
            return None;
        } else {
            let ghost acc0 = acc@;
            acc.push(c);
            proof {
                assert(s.drop_first() =~= b@.skip(i as int + 1));
                lemma_step_compose(b@, start as int, i as int, acc0, seq![c], i as int + 1);
            }
            i = i + 1;
        }
    }
}

/// The numeric value of an ASCII hexadecimal digit; 16 marks a non-digit.
fn hex_val_exec(b: u8) -> (v: u32)
    ensures
        is_hex_digit(b) <==> v < 16,
        is_hex_digit(b) ==> v == hex_value(b),
{
    if 0x30 <= b && b <= 0x39 {
        (b - 0x30) as u32
    } else if 0x41 <= b && b <= 0x46 {
        (b - 0x41) as u32 + 10
    } else if 0x61 <= b && b <= 0x66 {
        (b - 0x61) as u32 + 10
    } else {
        16
    }
}

/// One step of the string-body loop: when the suffix at `i` begins with
/// the encoding of the text bytes `piece` and continues at `next`, the
/// parse from `start` is the parse from `next` with `acc + piece` in
/// front.
proof fn lemma_step_compose(
    b: Seq<u8>,
    start: int,
    i: int,
    acc: Seq<u8>,
    piece: Seq<u8>,
    next: int,
)
    requires
        match parse_string_body(b.skip(i)) {
            Some(p) => parse_string_body(b.skip(start)) == Some((acc + p.0, p.1)),
            None => parse_string_body(b.skip(start)) is None,
        },
        match parse_string_body(b.skip(next)) {
            Some(p) => parse_string_body(b.skip(i)) == Some((piece + p.0, p.1)),
            None => parse_string_body(b.skip(i)) is None,
        },
    ensures
        match parse_string_body(b.skip(next)) {
            Some(p) => parse_string_body(b.skip(start)) == Some(((acc + piece) + p.0, p.1)),
            None => parse_string_body(b.skip(start)) is None,
        },
{
    match parse_string_body(b.skip(next)) {
        Some(p) => {
            assert(acc + (piece + p.0) =~= (acc + piece) + p.0);
        },
        None => {},
    }
}

/// Parses an entire buffer as one serialized message, implementing
/// [`parse_msg`]. On success returns the unescaped bytes of the text
/// value.
fn parse_msg_exec(b: &Vec<u8>) -> (r: Option<Vec<u8>>)
    ensures
        match r {
            Some(v) => parse_msg(b@) == Some(v@),
            None => parse_msg(b@) is None,
        },
{
    let n = b.len();
    proof {
        assert(b@.skip(0) =~= b@);
    }
    let i1 = skip_ws_exec(b, 0);
    let ghost s1 = skip_ws(b@);
    if i1 >= n {
        return None;
    }
    proof {
        assert(s1[0] == b@[i1 as int]);
    }
    if b[i1] != 0x7b {
        return None;
    }
    proof {
        assert(s1.drop_first() =~= b@.skip(i1 as int + 1));
    }
    let i2 = skip_ws_exec(b, i1 + 1);
    let ghost s2 = skip_ws(s1.drop_first());
    if n - i2 < 6 {
        return None;
    }
    proof {
        assert(s2 == b@.skip(i2 as int));
        assert forall|k: int| 0 <= k < 6 implies s2.subrange(0, 6)[k] == b@[i2 + k] by {
            assert(s2[k] == b@[i2 + k]);
        }
    }
    if b[i2] != 0x22 || b[i2 + 1] != 0x74 || b[i2 + 2] != 0x65 || b[i2 + 3] != 0x78 || b[i2 + 4]
        != 0x74 || b[i2 + 5] != 0x22 {
        proof {
            assert(s2.subrange(0, 6) != text_key());
        }
        return None;
    }
    proof {
        assert(s2.subrange(0, 6) =~= text_key());
        assert(s2.skip(6) =~= b@.skip(i2 as int + 6));
    }
    let i3 = skip_ws_exec(b, i2 + 6);
    let ghost s3 = skip_ws(s2.skip(6));
    if i3 >= n {
        return None;
    }
    proof {
        assert(s3[0] == b@[i3 as int]);
    }
    if b[i3] != 0x3a {
        return None;
    }
    proof {
        assert(s3.drop_first() =~= b@.skip(i3 as int + 1));
    }
    let i4 = skip_ws_exec(b, i3 + 1);
    let ghost s4 = skip_ws(s3.drop_first());
    if i4 >= n {
        return None;
    }
    proof {
        assert(s4[0] == b@[i4 as int]);
    }
    if b[i4] != 0x22 {
        return None;
    }
    proof {
        assert(s4.drop_first() =~= b@.skip(i4 as int + 1));
    }
    match parse_body_exec(b, i4 + 1) {
        None => None,
        Some((content, j)) => {
            let i5 = skip_ws_exec(b, j);
            let ghost s5 = skip_ws(b@.skip(j as int));
            if i5 >= n {
                return None;
            }
            proof {
                assert(s5[0] == b@[i5 as int]);
            }
            if b[i5] != 0x7d {
                return None;
            }
            proof {
                assert(s5.drop_first() =~= b@.skip(i5 as int + 1));
            }
            let i6 = skip_ws_exec(b, i5 + 1);
            if i6 != n {
                return None;
            }
            proof {
                assert(skip_ws(s5.drop_first()) =~= Seq::<u8>::empty());
            }
            Some(content)
        },
    }
}

/* The round-trip law and its supporting lemmas. */

/// Appending one byte to a text appends that byte's escape to the
/// escaped form.
proof fn lemma_escape_snoc(s: Seq<u8>, b: u8)
    ensures
        escape(s.push(b)) == escape(s) + escape_byte(b),
    decreases s.len(),
{
    if s.len() == 0 {
        assert(s.push(b)[0] == b);
        assert(s.push(b).drop_first() =~= Seq::<u8>::empty());
        assert(escape(Seq::<u8>::empty()) == Seq::<u8>::empty());
        assert(escape(s.push(b)) == escape_byte(b) + escape(s.push(b).drop_first()));
        assert(escape(s) == Seq::<u8>::empty());
        assert(escape_byte(b) + Seq::<u8>::empty() =~= escape_byte(b));
        assert(Seq::<u8>::empty() + escape_byte(b) =~= escape_byte(b));
        assert(escape(s.push(b)) =~= escape(s) + escape_byte(b));
    } else {
        assert(s.push(b)[0] == s[0]);
        assert(s.push(b).drop_first() =~= s.drop_first().push(b));
        assert(escape(s.push(b)) == escape_byte(s[0]) + escape(s.drop_first().push(b)));
        lemma_escape_snoc(s.drop_first(), b);
        assert(escape(s) == escape_byte(s[0]) + escape(s.drop_first()));
        assert(escape_byte(s[0]) + (escape(s.drop_first()) + escape_byte(b)) =~= (escape_byte(
            s[0],
        ) + escape(s.drop_first())) + escape_byte(b));
        assert(escape(s.push(b)) =~= escape(s) + escape_byte(b));
    }
}

/// Parsing a string body that begins with the escaped form of `t`
/// followed by a closing quote recovers `t` exactly and stops at the
/// quote.
proof fn lemma_parse_body_escape(t: Seq<u8>, rest: Seq<u8>)
    ensures
        parse_string_body(escape(t) + seq![0x22u8] + rest) == Some((t, rest)),
    decreases t.len(),
{
    let s = escape(t) + seq![0x22u8] + rest;
    if t.len() == 0 {
        assert(s[0] == 0x22u8);
        assert(s.drop_first() =~= rest);
        assert(t =~= Seq::<u8>::empty());
    } else {
        let h = t[0];
        let t2 = t.drop_first();
        assert(escape(t) == escape_byte(h) + escape(t2));
        let s_next = escape(t2) + seq![0x22u8] + rest;
        lemma_parse_body_escape(t2, rest);
        assert(seq![h] + t2 =~= t);
        if h == 0x22u8 || h == 0x5cu8 || h == 0x08u8 || h == 0x09u8 || h == 0x0au8 || h == 0x0cu8
            || h == 0x0du8 {
            let e = escape_byte(h)[1];
            assert(s[0] == 0x5cu8);
            assert(s[1] == e);
            assert(simple_escape(e) == Some(h));
            assert(s.skip(2) =~= s_next);
            assert(parse_string_body(s) == Some((t, rest)));
        } else if h < 0x20u8 {
            let hi: u8 = if h >= 0x10u8 {
                0x31u8
            } else {
                0x30u8
            };
            let lo: u8 = if h >= 0x10u8 {
                (h - 0x10u8) as u8
            } else {
                h
            };
            let d = hex_digit_char(lo);
            assert(s[0] == 0x5cu8);
            assert(s[1] == 0x75u8);
            assert(s[2] == 0x30u8);
            assert(s[3] == 0x30u8);
            assert(s[4] == hi);
            assert(s[5] == d);
            assert(is_hex_digit(hi) && hex_value(hi) == (if h >= 0x10u8 { 1u32 } else { 0u32 }));
            assert(is_hex_digit(d) && hex_value(d) == lo as u32);
            assert(hex4(s[2], s[3], s[4], s[5]) == h as u32);
            let cp = h as u32;
            assert(!(0xd800u32 <= cp && cp <= 0xdfffu32));
            assert(cp & 0x7f == cp) by (bit_vector)
                requires
                    cp < 0x20u32,
            ;
            assert(encode_scalar(cp) =~= seq![h]);
            assert(s.skip(6) =~= s_next);
            assert(parse_string_body(s) == Some((t, rest)));
        } else {
            assert(escape_byte(h) == seq![h]);
            assert(s[0] == h);
            assert(s.drop_first() =~= s_next);
            assert(parse_string_body(s) == Some((t, rest)));
        }
    }
}

/// Parsing the exact bytes the encoder emits for text bytes `t` yields
/// `t` back.
pub proof fn lemma_parse_encoded(t: Seq<u8>)
    ensures
        parse_msg(json_prefix() + escape(t) + json_suffix()) == Some(t),
{
    let j = json_prefix() + escape(t) + json_suffix();
    assert(j[0] == 0x7bu8);
    assert(skip_ws(j) == j);
    let s2 = j.drop_first();
    assert(skip_ws(s2) == s2) by {
        assert(s2[0] == j[1]);
        assert(j[1] == 0x22u8);
    }
    assert(s2.subrange(0, 6) =~= text_key()) by {
        assert forall|k: int| 0 <= k < 6 implies s2.subrange(0, 6)[k] == text_key()[k] by {
            assert(s2.subrange(0, 6)[k] == j[1 + k]);
        }
    }
    let s3 = s2.skip(6);
    assert(s3[0] == j[7]);
    assert(j[7] == 0x3au8);
    assert(skip_ws(s3) == s3);
    let s4 = s3.drop_first();
    assert(s4[0] == j[8]);
    assert(j[8] == 0x22u8);
    assert(skip_ws(s4) == s4);
    assert(s4.drop_first() =~= escape(t) + seq![0x22u8] + seq![0x7du8]);
    lemma_parse_body_escape(t, seq![0x7du8]);
    let rest = seq![0x7du8];
    assert(skip_ws(rest) == rest);
    assert(rest[0] == 0x7du8);
    assert(rest.drop_first() =~= Seq::<u8>::empty());
    assert(skip_ws(Seq::<u8>::empty()).len() == 0);
    assert(parse_msg(j) == Some(t));
}

/// The round-trip law: for every text, the bytes the encoder emits parse
/// back to exactly the UTF-8 encoding of that text, that encoding is
/// valid UTF-8, and decoding it yields the original characters. Together
/// with the contracts of `encode` and `decode`, this says that decoding a
/// buffer holding an encoded message returns a message equal to the one
/// encoded.
pub proof fn lemma_codec_round_trip(text: Seq<char>)
    ensures
        parse_msg(json_bytes(text)) == Some(encode_utf8(text)),
        valid_utf8(encode_utf8(text)),
        decode_utf8(encode_utf8(text)) == text,
{
    lemma_parse_encoded(encode_utf8(text));
    encode_utf8_valid_utf8(text);
    encode_utf8_decode_utf8(text);
}

} // verus!
