//! A reader for the lines the JSON encoder writes: one object whose values
//! are strings, numbers and the literals `null`, `true` and `false`, and a
//! line feed. The grammar is that of RFC 8259, without white space and
//! without nested values. The proofs show that every line the encoder
//! writes is such an object, and that its keys are the column names.

use vstd::prelude::*;
use vstd::utf8::*;
use crate::access::{json_accessor_of, fetch, Accessor, Rendered};
use crate::json::{
    all_encodable, float_written, floats_are_finite, json_char, json_chars, json_key, json_line,
    json_members, json_string, json_value, null_text,
};
use crate::json_reader::{
    lemma_read_chars, string_read, string_step, StringMode, StringReader,
};
use crate::number::{
    is_complete, lemma_decimal_is_number, lemma_digits_on_one_line, lemma_number_on_one_line,
    number_read, number_start, number_step, on_one_line, NumberMode,
};
use crate::row::{is_finite_text, ColumnView, ValueView};
use crate::text::{
    bool_text, lemma_char_range, lemma_scalar_bytes, separator, CLOSE_BRACE, COLON, COMMA,
    LINE_FEED, OPEN_BRACE, QUOTE,
};

verus! {

/// Where the reader stands within the line.
pub enum Place {
    /// In front of the opening brace.
    Open,
    /// Behind the opening brace.
    FirstKey,
    /// Behind a comma.
    NextKey,
    /// Inside a key.
    Key,
    /// Behind a key.
    Colon,
    /// Behind the colon.
    Value,
    /// Inside a string value.
    Text,
    /// Inside a literal of which `rest` is still to come.
    Literal { rest: Seq<u8> },
    /// Inside a number.
    Number { mode: NumberMode },
    /// Behind a string or a literal.
    Next,
    /// Behind the closing brace.
    Close,
    /// Behind the line feed.
    Done,
    /// The input is not such a line.
    Invalid,
}

/// The reader's state: the keys read so far, the string at hand, and where
/// the reader stands.
pub struct ObjectReader {
    pub keys: Seq<Seq<char>>,
    pub text: StringReader,
    pub place: Place,
}

/// The reader with `place` in place of its own.
pub open spec fn go(reader: ObjectReader, place: Place) -> ObjectReader {
    ObjectReader { place, ..reader }
}

/// The reader behind the opening quote of a string, at `place`.
pub open spec fn open_string(reader: ObjectReader, place: Place) -> ObjectReader {
    ObjectReader {
        keys: reader.keys,
        text: StringReader { decoded: Seq::empty(), mode: StringMode::Plain },
        place,
    }
}

/// The reader behind a byte that follows a complete value.
pub open spec fn after_value(reader: ObjectReader, byte: u8) -> ObjectReader {
    if byte == COMMA {
        go(reader, Place::NextKey)
    } else if byte == CLOSE_BRACE {
        go(reader, Place::Close)
    } else {
        go(reader, Place::Invalid)
    }
}

/// The reader behind the first byte of a value.
pub open spec fn value_start(reader: ObjectReader, byte: u8) -> ObjectReader {
    if byte == QUOTE {
        open_string(reader, Place::Text)
    } else if byte == 0x6e {
        go(reader, Place::Literal { rest: seq![0x75u8, 0x6cu8, 0x6cu8] })
    } else if byte == 0x74 {
        go(reader, Place::Literal { rest: seq![0x72u8, 0x75u8, 0x65u8] })
    } else if byte == 0x66 {
        go(reader, Place::Literal { rest: seq![0x61u8, 0x6cu8, 0x73u8, 0x65u8] })
    } else {
        match number_start(byte) {
            Some(mode) => go(reader, Place::Number { mode }),
            None => go(reader, Place::Invalid),
        }
    }
}

/// The reader behind one more byte of a string. A string that ends must be
/// valid UTF-8; a key that ends joins the keys.
pub open spec fn inside_string(reader: ObjectReader, byte: u8) -> ObjectReader {
    let text = string_step(reader.text, byte);
    if text.mode is Closed {
        if !valid_utf8(text.decoded) {
            go(reader, Place::Invalid)
        } else if reader.place is Key {
            ObjectReader {
                keys: reader.keys.push(decode_utf8(text.decoded)),
                text,
                place: Place::Colon,
            }
        } else {
            ObjectReader { keys: reader.keys, text, place: Place::Next }
        }
    } else if text.mode is Invalid {
        go(reader, Place::Invalid)
    } else {
        ObjectReader { keys: reader.keys, text, place: reader.place }
    }
}

/// The reader after one more byte.
pub open spec fn object_step(reader: ObjectReader, byte: u8) -> ObjectReader {
    match reader.place {
        Place::Open => if byte == OPEN_BRACE {
            go(reader, Place::FirstKey)
        } else {
            go(reader, Place::Invalid)
        },
        Place::FirstKey => if byte == QUOTE {
            open_string(reader, Place::Key)
        } else if byte == CLOSE_BRACE {
            go(reader, Place::Close)
        } else {
            go(reader, Place::Invalid)
        },
        Place::NextKey => if byte == QUOTE {
            open_string(reader, Place::Key)
        } else {
            go(reader, Place::Invalid)
        },
        Place::Key => inside_string(reader, byte),
        Place::Colon => if byte == COLON {
            go(reader, Place::Value)
        } else {
            go(reader, Place::Invalid)
        },
        Place::Value => value_start(reader, byte),
        Place::Text => inside_string(reader, byte),
        Place::Literal { rest } => if rest.len() > 0 && byte == rest[0] {
            if rest.len() == 1 {
                go(reader, Place::Next)
            } else {
                go(reader, Place::Literal { rest: rest.drop_first() })
            }
        } else {
            go(reader, Place::Invalid)
        },
        Place::Number { mode } => match number_step(mode, byte) {
            Some(next) => go(reader, Place::Number { mode: next }),
            None => if is_complete(mode) {
                after_value(reader, byte)
            } else {
                go(reader, Place::Invalid)
            },
        },
        Place::Next => after_value(reader, byte),
        Place::Close => if byte == LINE_FEED {
            go(reader, Place::Done)
        } else {
            go(reader, Place::Invalid)
        },
        Place::Done => go(reader, Place::Invalid),
        Place::Invalid => reader,
    }
}

/// The reader after the bytes of `input`, one after the other.
pub open spec fn object_read(reader: ObjectReader, input: Seq<u8>) -> ObjectReader
    decreases input.len(),
{
    if input.len() == 0 {
        reader
    } else {
        object_step(object_read(reader, input.drop_last()), input.last())
    }
}

/// The reader in front of a line.
pub open spec fn at_line_start() -> ObjectReader {
    ObjectReader {
        keys: Seq::empty(),
        text: StringReader { decoded: Seq::empty(), mode: StringMode::Plain },
        place: Place::Open,
    }
}

/// The keys of the object on the line `input`, in the order in which they
/// stand, or `None` where `input` is not one object and a line feed.
pub open spec fn object_keys(input: Seq<u8>) -> Option<Seq<Seq<char>>> {
    let reader = object_read(at_line_start(), input);
    if reader.place is Done {
        Some(reader.keys)
    } else {
        None
    }
}

/// The names of the columns of `row`, in column order.
pub open spec fn column_names(row: Seq<ColumnView>) -> Seq<Seq<char>> {
    Seq::new(row.len(), |i: int| row[i].name)
}

/// Reading two inputs in a row is reading their concatenation.
pub proof fn lemma_object_read_concat(reader: ObjectReader, first: Seq<u8>, second: Seq<u8>)
    ensures
        object_read(reader, first + second) == object_read(object_read(reader, first), second),
    decreases second.len(),
{
    if second.len() == 0 {
        assert(first + second =~= first);
    } else {
        assert((first + second).drop_last() =~= first + second.drop_last());
        lemma_object_read_concat(reader, first, second.drop_last());
    }
}

/// Reading one byte is one step.
pub proof fn lemma_object_read_push(reader: ObjectReader, input: Seq<u8>, byte: u8)
    ensures
        object_read(reader, input.push(byte)) == object_step(object_read(reader, input), byte),
{
    assert(input.push(byte).drop_last() =~= input);
}

/// Whether the reader stands behind a complete value.
pub open spec fn value_complete(reader: ObjectReader) -> bool {
    match reader.place {
        Place::Next => true,
        Place::Number { mode } => is_complete(mode),
        _ => false,
    }
}

/// Whether a string is still open where the reader stands.
pub open spec fn is_open(mode: StringMode) -> bool {
    !(mode is Closed) && !(mode is Invalid)
}

/// Inside a string, the reader follows the string reader for as long as the
/// string stays open.
proof fn lemma_read_inside_string(reader: ObjectReader, input: Seq<u8>)
    requires
        reader.place is Key || reader.place is Text,
        is_open(reader.text.mode),
        is_open(string_read(reader.text, input).mode),
    ensures
        object_read(reader, input) == (ObjectReader {
            text: string_read(reader.text, input),
            ..reader
        }),
    decreases input.len(),
{
    if input.len() > 0 {
        let front = input.drop_last();
        lemma_read_inside_string(reader, front);
    }
}

/// From behind its opening quote, the rest of an encoded string takes the
/// reader behind a key or behind a value.
proof fn lemma_read_string_body(reader: ObjectReader, text: Seq<char>)
    requires
        reader.place is Key || reader.place is Text,
        reader.text == (StringReader { decoded: Seq::empty(), mode: StringMode::Plain }),
    ensures
        reader.place is Key ==> object_read(reader, json_chars(text).push(QUOTE)).keys
            == reader.keys.push(text) && object_read(
            reader,
            json_chars(text).push(QUOTE),
        ).place is Colon,
        reader.place is Text ==> object_read(reader, json_chars(text).push(QUOTE)).keys
            == reader.keys && object_read(reader, json_chars(text).push(QUOTE)).place is Next,
{
    lemma_read_chars(reader.text, text);
    lemma_read_inside_string(reader, json_chars(text));
    lemma_object_read_push(reader, json_chars(text), QUOTE);
    assert(reader.text.decoded + encode_utf8(text) =~= encode_utf8(text));
    encode_utf8_valid_utf8(text);
    encode_utf8_decode_utf8(text);
}

/// A whole encoded string takes the reader from in front of a key to behind
/// it, with the text as one more key.
proof fn lemma_read_key(reader: ObjectReader, text: Seq<char>)
    requires
        reader.place is FirstKey || reader.place is NextKey,
    ensures
        object_read(reader, json_string(text)).keys == reader.keys.push(text),
        object_read(reader, json_string(text)).place is Colon,
{
    let none = Seq::<u8>::empty();
    assert(json_string(text) =~= seq![QUOTE] + json_chars(text).push(QUOTE));
    assert(seq![QUOTE] =~= none.push(QUOTE));
    lemma_object_read_push(reader, none, QUOTE);
    lemma_object_read_concat(reader, seq![QUOTE], json_chars(text).push(QUOTE));
    lemma_read_string_body(open_string(reader, Place::Key), text);
}

/// A whole encoded string is a complete value.
proof fn lemma_read_string_value(reader: ObjectReader, text: Seq<char>)
    requires
        reader.place is Value,
    ensures
        object_read(reader, json_string(text)).keys == reader.keys,
        object_read(reader, json_string(text)).place is Next,
{
    let none = Seq::<u8>::empty();
    assert(json_string(text) =~= seq![QUOTE] + json_chars(text).push(QUOTE));
    assert(seq![QUOTE] =~= none.push(QUOTE));
    lemma_object_read_push(reader, none, QUOTE);
    lemma_object_read_concat(reader, seq![QUOTE], json_chars(text).push(QUOTE));
    lemma_read_string_body(open_string(reader, Place::Text), text);
}

/// A JSON number is a complete value.
proof fn lemma_read_number(reader: ObjectReader, input: Seq<u8>)
    requires
        reader.place is Value,
        number_read(input) is Some,
    ensures
        object_read(reader, input) == go(
            reader,
            Place::Number { mode: number_read(input)->Some_0 },
        ),
    decreases input.len(),
{
    if input.len() == 1 {
        assert(input.drop_last() =~= Seq::<u8>::empty());
        assert(input.last() == input[0]);
    } else {
        lemma_read_number(reader, input.drop_last());
    }
}

/// A literal is a complete value.
proof fn lemma_read_literal(reader: ObjectReader, literal: Seq<u8>)
    requires
        reader.place is Value,
        literal == null_text() || literal == bool_text(true) || literal == bool_text(false),
    ensures
        object_read(reader, literal) == go(reader, Place::Next),
{
    let none = Seq::<u8>::empty();
    let s1 = none.push(literal[0]);
    let s2 = s1.push(literal[1]);
    let s3 = s2.push(literal[2]);
    let s4 = s3.push(literal[3]);
    lemma_object_read_push(reader, none, literal[0]);
    lemma_object_read_push(reader, s1, literal[1]);
    lemma_object_read_push(reader, s2, literal[2]);
    lemma_object_read_push(reader, s3, literal[3]);
    let r1 = object_read(reader, s1);
    if literal.len() == 4 {
        assert(literal =~= s4);
        let rest = r1.place->Literal_rest;
        assert(rest.drop_first().drop_first() =~= seq![rest[2]]);
    } else {
        assert(literal =~= s4.push(literal[4]));
        lemma_object_read_push(reader, s4, literal[4]);
        let rest = r1.place->Literal_rest;
        assert(rest.drop_first().drop_first().drop_first() =~= seq![rest[3]]);
    }
}

/// What holds of a row holds of its columns but the last, and of the last.
proof fn lemma_without_last(row: Seq<ColumnView>)
    requires
        row.len() > 0,
        all_encodable(row),
        floats_are_finite(row),
    ensures
        all_encodable(row.drop_last()),
        floats_are_finite(row.drop_last()),
        json_value(row.last()) is Some,
        floats_are_finite(seq![row.last()]),
{
    let front = row.drop_last();
    assert forall|i: int| 0 <= i < front.len() implies json_value(#[trigger] front[i])
        is Some by {
        assert(front[i] == row[i]);
    }
    assert forall|i: int| 0 <= i < front.len() implies match float_written(#[trigger] front[i]) {
        Some(text) => is_finite_text(text),
        None => true,
    } by {
        assert(front[i] == row[i]);
    }
    assert(row[row.len() - 1] == row.last());
}

/// The value of a column is a complete value.
proof fn lemma_read_value(reader: ObjectReader, column: ColumnView)
    requires
        reader.place is Value,
        json_value(column) is Some,
        floats_are_finite(seq![column]),
    ensures
        object_read(reader, json_value(column)->Some_0).keys == reader.keys,
        value_complete(object_read(reader, json_value(column)->Some_0)),
{
    let accessor = json_accessor_of(column.type_tag);
    if column.value is Null || accessor == Accessor::Unmapped {
        lemma_read_literal(reader, null_text());
    } else {
        assert(seq![column][0] == column);
        match fetch(accessor, column.value) {
            Some(Rendered::Bare(text)) => {
                match column.value {
                    ValueView::Bool(b) => {
                        lemma_read_literal(reader, bool_text(b));
                    },
                    ValueView::Int(n) => {
                        lemma_decimal_is_number(n);
                        lemma_read_number(reader, text);
                    },
                    _ => {
                        lemma_read_number(reader, text);
                    },
                }
            },
            Some(Rendered::Text(text)) => {
                lemma_read_string_value(reader, text);
            },
            None => {},
        }
    }
}

/// Behind the opening brace and the members of a row, the reader holds the
/// column names as its keys, and stands behind the brace where the row has
/// no column and behind a complete value where it has one.
proof fn lemma_read_members(row: Seq<ColumnView>)
    requires
        all_encodable(row),
        floats_are_finite(row),
    ensures
        ({
            let reader = object_read(at_line_start(), seq![OPEN_BRACE] + json_members(row));
            &&& reader.keys == column_names(row)
            &&& row.len() == 0 ==> reader.place is FirstKey
            &&& row.len() > 0 ==> value_complete(reader)
        }),
    decreases row.len(),
{
    let none = Seq::<u8>::empty();
    let opened = seq![OPEN_BRACE];
    if row.len() == 0 {
        assert(opened + json_members(row) =~= none.push(OPEN_BRACE));
        lemma_object_read_push(at_line_start(), none, OPEN_BRACE);
        assert(column_names(row) =~= Seq::<Seq<char>>::empty());
    } else {
        let front = row.drop_last();
        let column = row.last();
        lemma_without_last(row);
        lemma_read_members(front);
        let before = opened + json_members(front);
        let r0 = object_read(at_line_start(), before);
        let comma = separator((row.len() - 1) as nat);
        let r1 = object_read(r0, comma);
        assert(r1.keys == r0.keys && (r1.place is FirstKey || r1.place is NextKey)) by {
            if front.len() == 0 {
                assert(comma =~= none);
            } else {
                assert(comma =~= none.push(COMMA));
                lemma_object_read_push(r0, none, COMMA);
            }
        }
        lemma_read_key(r1, column.name);
        let r2 = object_read(r1, json_string(column.name));
        lemma_object_read_push(r1, json_string(column.name), COLON);
        let r3 = object_read(r1, json_key(column));
        let value = json_value(column)->Some_0;
        lemma_read_value(r3, column);
        lemma_object_read_concat(at_line_start(), before, comma);
        lemma_object_read_concat(at_line_start(), before + comma, json_key(column));
        lemma_object_read_concat(at_line_start(), before + comma + json_key(column), value);
        assert(opened + json_members(row) =~= before + comma + json_key(column) + value);
        assert(column_names(row) =~= column_names(front).push(column.name));
    }
}

/// Every line is one JSON object, and its keys are the column names: for a
/// row of which every column can be encoded and every floating-point number
/// is finite, the line reads as an object followed by a line feed, with one
/// key per column, in column order, repeated names included.
///
/// The text of a number that is not finite (`NaN`, `inf`, `-inf`) is written
/// as it stands and is no JSON value.
pub proof fn lemma_line_is_object(row: Seq<ColumnView>)
    requires
        all_encodable(row),
        floats_are_finite(row),
    ensures
        object_keys(json_line(row)) == Some(column_names(row)),
{
    let body = seq![OPEN_BRACE] + json_members(row);
    lemma_read_members(row);
    assert(json_line(row) =~= body.push(CLOSE_BRACE).push(LINE_FEED));
    lemma_object_read_push(at_line_start(), body.push(CLOSE_BRACE), LINE_FEED);
    lemma_object_read_push(at_line_start(), body, CLOSE_BRACE);
}

/// The bytes of an escaped text hold no line feed.
proof fn lemma_chars_on_one_line(text: Seq<char>)
    ensures
        on_one_line(json_chars(text)),
    decreases text.len(),
{
    if text.len() > 0 {
        lemma_chars_on_one_line(text.drop_last());
        let c = text.last();
        lemma_char_range(c);
        lemma_scalar_bytes(c);
        assert(on_one_line(json_char(c)));
    }
}

/// The members of a row hold no line feed.
proof fn lemma_members_on_one_line(row: Seq<ColumnView>)
    requires
        all_encodable(row),
        floats_are_finite(row),
    ensures
        on_one_line(json_members(row)),
    decreases row.len(),
{
    if row.len() > 0 {
        let front = row.drop_last();
        let column = row.last();
        lemma_without_last(row);
        lemma_members_on_one_line(front);
        lemma_chars_on_one_line(column.name);
        let value = json_value(column)->Some_0;
        assert(on_one_line(value)) by {
            match fetch(json_accessor_of(column.type_tag), column.value) {
                Some(Rendered::Bare(text)) => {
                    match column.value {
                        ValueView::Int(n) => {
                            if n < 0 {
                                lemma_digits_on_one_line((-n) as nat);
                            } else {
                                lemma_digits_on_one_line(n as nat);
                            }
                        },
                        ValueView::Float(_) | ValueView::Double(_) => {
                            lemma_number_on_one_line(text);
                        },
                        _ => {},
                    }
                },
                Some(Rendered::Text(text)) => {
                    lemma_chars_on_one_line(text);
                },
                None => {},
            }
        }
    }
}

/// Every line ends at its only line feed, so that the sink can be cut into
/// lines at the line feeds: for a row of which every column can be encoded
/// and every floating-point number is finite, the last byte of the line is
/// a line feed and no other byte is.
pub proof fn lemma_line_ends_at_line_feed(row: Seq<ColumnView>)
    requires
        all_encodable(row),
        floats_are_finite(row),
    ensures
        json_line(row).last() == LINE_FEED,
        on_one_line(json_line(row).drop_last()),
{
    lemma_members_on_one_line(row);
    assert(json_line(row).drop_last() =~= (seq![OPEN_BRACE] + json_members(row)).push(
        CLOSE_BRACE,
    ));
}

} // verus!
