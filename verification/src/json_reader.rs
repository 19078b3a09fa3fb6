//! A reader for JSON strings as RFC 8259 describes them, and the proof that
//! it gets back from an encoded string the characters that were written.
//!
//! The reader knows every escape of the grammar. It does not pair
//! surrogates: a `\u` escape that names one is not accepted. The encoder
//! writes no such escape.

use vstd::prelude::*;
use vstd::utf8::*;
use crate::json::{hex_digit, is_control, json_char, json_chars, json_string};
use crate::text::{lemma_scalar_bytes, BACKSLASH, QUOTE, ZERO};

verus! {

/// Where the reader stands within a string.
pub enum StringMode {
    /// Between characters.
    Plain,
    /// Behind a backslash.
    Escaped,
    /// Behind `\u` and `digits` hexadecimal digits, whose value is `value`.
    Hex { digits: nat, value: nat },
    /// Behind the closing quote.
    Closed,
    /// The input is not a JSON string.
    Invalid,
}

/// The reader's state: the UTF-8 bytes of the characters read so far, and
/// where it stands.
pub struct StringReader {
    pub decoded: Seq<u8>,
    pub mode: StringMode,
}

/// The value of a hexadecimal digit, in either case.
pub open spec fn hex_value(byte: u8) -> Option<nat> {
    if 0x30 <= byte <= 0x39 {
        Some((byte - 0x30) as nat)
    } else if 0x61 <= byte <= 0x66 {
        Some((byte - 0x61 + 10) as nat)
    } else if 0x41 <= byte <= 0x46 {
        Some((byte - 0x41 + 10) as nat)
    } else {
        None
    }
}

/// The character that the letter behind a backslash stands for.
pub open spec fn escaped_byte(letter: u8) -> Option<u8> {
    if letter == QUOTE || letter == BACKSLASH || letter == 0x2f {
        Some(letter)
    } else if letter == 0x62 {
        Some(0x08u8)
    } else if letter == 0x66 {
        Some(0x0cu8)
    } else if letter == 0x6e {
        Some(0x0au8)
    } else if letter == 0x72 {
        Some(0x0du8)
    } else if letter == 0x74 {
        Some(0x09u8)
    } else {
        None
    }
}

/// Whether `code` is a surrogate.
pub open spec fn is_surrogate(code: nat) -> bool {
    0xd800 <= code <= 0xdfff
}

/// The reader with `mode` in place of its own.
pub open spec fn turn(reader: StringReader, mode: StringMode) -> StringReader {
    StringReader { decoded: reader.decoded, mode }
}

/// The reader between characters, with `bytes` added to what it has read.
pub open spec fn gain(reader: StringReader, bytes: Seq<u8>) -> StringReader {
    StringReader { decoded: reader.decoded + bytes, mode: StringMode::Plain }
}

/// The reader after one more byte of a string's body.
pub open spec fn string_step(reader: StringReader, byte: u8) -> StringReader {
    match reader.mode {
        StringMode::Plain => if byte == QUOTE {
            turn(reader, StringMode::Closed)
        } else if byte == BACKSLASH {
            turn(reader, StringMode::Escaped)
        } else if byte < 0x20 {
            turn(reader, StringMode::Invalid)
        } else {
            gain(reader, seq![byte])
        },
        StringMode::Escaped => if byte == 0x75 {
            turn(reader, StringMode::Hex { digits: 0, value: 0 })
        } else {
            match escaped_byte(byte) {
                Some(b) => gain(reader, seq![b]),
                None => turn(reader, StringMode::Invalid),
            }
        },
        StringMode::Hex { digits, value } => match hex_value(byte) {
            Some(d) => if digits < 3 {
                turn(reader, StringMode::Hex { digits: digits + 1, value: value * 16 + d })
            } else if digits == 3 && !is_surrogate(value * 16 + d) && value * 16 + d <= 0xffff {
                gain(reader, encode_scalar((value * 16 + d) as u32))
            } else {
                turn(reader, StringMode::Invalid)
            },
            None => turn(reader, StringMode::Invalid),
        },
        StringMode::Closed => turn(reader, StringMode::Invalid),
        StringMode::Invalid => reader,
    }
}

/// The reader after the bytes of `input`, one after the other.
pub open spec fn string_read(reader: StringReader, input: Seq<u8>) -> StringReader
    decreases input.len(),
{
    if input.len() == 0 {
        reader
    } else {
        string_step(string_read(reader, input.drop_last()), input.last())
    }
}

/// The characters of the JSON string `input`, or `None` where `input` is
/// not one JSON string.
pub open spec fn decode_string(input: Seq<u8>) -> Option<Seq<char>> {
    if input.len() == 0 || input[0] != QUOTE {
        None
    } else {
        let reader = string_read(
            StringReader { decoded: Seq::empty(), mode: StringMode::Plain },
            input.drop_first(),
        );
        if reader.mode is Closed && valid_utf8(reader.decoded) {
            Some(decode_utf8(reader.decoded))
        } else {
            None
        }
    }
}

/// Reading two inputs in a row is reading their concatenation.
pub proof fn lemma_string_read_concat(reader: StringReader, first: Seq<u8>, second: Seq<u8>)
    ensures
        string_read(reader, first + second) == string_read(string_read(reader, first), second),
    decreases second.len(),
{
    if second.len() == 0 {
        assert(first + second =~= first);
    } else {
        assert((first + second).drop_last() =~= first + second.drop_last());
        lemma_string_read_concat(reader, first, second.drop_last());
    }
}

/// Reading one byte is one step.
pub proof fn lemma_string_read_push(reader: StringReader, input: Seq<u8>, byte: u8)
    ensures
        string_read(reader, input.push(byte)) == string_step(string_read(reader, input), byte),
{
    assert(input.push(byte).drop_last() =~= input);
}

/// Whether a byte stands for itself between characters.
pub open spec fn is_literal(byte: u8) -> bool {
    byte >= 0x20 && byte != QUOTE && byte != BACKSLASH
}

/// Bytes that stand for themselves are read as they are.
proof fn lemma_read_literals(reader: StringReader, bytes: Seq<u8>)
    requires
        reader.mode is Plain,
        forall|i: int| 0 <= i < bytes.len() ==> is_literal(#[trigger] bytes[i]),
    ensures
        string_read(reader, bytes) == gain(reader, bytes),
    decreases bytes.len(),
{
    if bytes.len() == 0 {
        assert(reader.decoded + bytes =~= reader.decoded);
    } else {
        let front = bytes.drop_last();
        assert forall|i: int| 0 <= i < front.len() implies is_literal(#[trigger] front[i]) by {
            assert(front[i] == bytes[i]);
        }
        lemma_read_literals(reader, front);
        assert(is_literal(bytes[bytes.len() - 1]));
        assert((reader.decoded + front) + seq![bytes.last()] =~= reader.decoded + bytes);
    }
}

/// The UTF-8 encoding of a character that the encoder does not escape is
/// made of bytes that stand for themselves.
proof fn lemma_encoding_is_literal(c: char)
    requires
        c != '"',
        c != '\\',
        !is_control(c),
    ensures
        forall|i: int|
            0 <= i < encode_scalar(c as u32).len() ==> is_literal(
                #[trigger] encode_scalar(c as u32)[i],
            ),
{
    lemma_scalar_bytes(c);
}

/// The two hexadecimal digits of a numeric escape give back the character's
/// number.
proof fn lemma_hex_round_trip(v: int)
    requires
        0 <= v < 16,
    ensures
        hex_value(hex_digit(v)) == Some(v as nat),
{
}

/// The bytes the encoder writes for one character are read as that
/// character.
proof fn lemma_read_char(reader: StringReader, c: char)
    requires
        reader.mode is Plain,
    ensures
        string_read(reader, json_char(c)) == gain(reader, encode_scalar(c as u32)),
{
    let scalar = c as u32;
    char_is_scalar(c);
    let none = Seq::<u8>::empty();
    if c == '"' || c == '\\' || scalar == 0x08 || scalar == 0x0c || c == '\n' || c == '\r' || c
        == '\t' {
        let letter = json_char(c)[1];
        assert(json_char(c) =~= none.push(BACKSLASH).push(letter));
        lemma_string_read_push(reader, none.push(BACKSLASH), letter);
        lemma_string_read_push(reader, none, BACKSLASH);
        assert(scalar & 0x7f == scalar) by (bit_vector)
            requires
                scalar <= 0x7f,
        ;
        assert(encode_scalar(scalar) =~= seq![scalar as u8]);
    } else if is_control(c) {
        let high = hex_digit(c as int / 16);
        let low = hex_digit(c as int % 16);
        let s1 = none.push(BACKSLASH);
        let s2 = s1.push(0x75u8);
        let s3 = s2.push(ZERO);
        let s4 = s3.push(ZERO);
        let s5 = s4.push(high);
        assert(json_char(c) =~= s5.push(low));
        lemma_string_read_push(reader, s5, low);
        lemma_string_read_push(reader, s4, high);
        lemma_string_read_push(reader, s3, ZERO);
        lemma_string_read_push(reader, s2, ZERO);
        lemma_string_read_push(reader, s1, 0x75u8);
        lemma_string_read_push(reader, none, BACKSLASH);
        lemma_hex_round_trip(c as int / 16);
        lemma_hex_round_trip(c as int % 16);
        assert(hex_value(ZERO) == Some(0nat));
    } else {
        lemma_encoding_is_literal(c);
        lemma_read_literals(reader, encode_scalar(scalar));
    }
}

/// The UTF-8 encoding of a text with one more character is the encoding of
/// the text and then that of the character.
pub proof fn lemma_encode_push(text: Seq<char>, c: char)
    ensures
        encode_utf8(text.push(c)) == encode_utf8(text) + encode_scalar(c as u32),
    decreases text.len(),
{
    if text.len() == 0 {
        let rest = text.push(c).drop_first();
        assert(rest.len() == 0);
        assert(encode_utf8(rest) =~= Seq::<u8>::empty());
        assert(encode_utf8(text) =~= Seq::<u8>::empty());
        assert(text.push(c)[0] == c);
        assert(encode_utf8(text.push(c)) =~= encode_utf8(text) + encode_scalar(c as u32));
    } else {
        assert(text.push(c).drop_first() =~= text.drop_first().push(c));
        lemma_encode_push(text.drop_first(), c);
        assert(encode_utf8(text.push(c)) =~= encode_utf8(text) + encode_scalar(c as u32));
    }
}

/// The escaped characters of a text are read as the text's UTF-8 encoding.
pub proof fn lemma_read_chars(reader: StringReader, text: Seq<char>)
    requires
        reader.mode is Plain,
    ensures
        string_read(reader, json_chars(text)) == gain(reader, encode_utf8(text)),
    decreases text.len(),
{
    if text.len() == 0 {
        assert(reader.decoded + encode_utf8(text) =~= reader.decoded);
    } else {
        let front = text.drop_last();
        lemma_read_chars(reader, front);
        lemma_string_read_concat(reader, json_chars(front), json_char(text.last()));
        lemma_read_char(gain(reader, encode_utf8(front)), text.last());
        assert(front.push(text.last()) =~= text);
        lemma_encode_push(front, text.last());
        assert((reader.decoded + encode_utf8(front)) + encode_scalar(text.last() as u32)
            =~= reader.decoded + encode_utf8(text));
    }
}

/// Every string reads back as the text it was written from, whatever
/// control characters, quotes and backslashes the text holds.
pub proof fn lemma_string_round_trip(text: Seq<char>)
    ensures
        decode_string(json_string(text)) == Some(text),
{
    let start = StringReader { decoded: Seq::empty(), mode: StringMode::Plain };
    let body = json_string(text).drop_first();
    assert(body =~= json_chars(text).push(QUOTE));
    lemma_string_read_push(start, json_chars(text), QUOTE);
    lemma_read_chars(start, text);
    assert(start.decoded + encode_utf8(text) =~= encode_utf8(text));
    encode_utf8_valid_utf8(text);
    encode_utf8_decode_utf8(text);
}

} // verus!
