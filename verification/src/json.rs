//! The JSON encoder: one object per row, each on a line of its own.

use vstd::prelude::*;
use vstd::utf8::*;
use crate::access::{json_accessor, json_accessor_of, fetch, Accessor, Rendered};
use crate::row::{is_finite_text, Column, ColumnView, Row, RowAccessError, Value, ValueView};
use crate::text::{
    append, lemma_char_range, push_bool, push_decimal, push_utf8, separator, BACKSLASH,
    CLOSE_BRACE, COLON, COMMA, LINE_FEED, OPEN_BRACE, QUOTE, ZERO,
};
use crate::timestamp::render_timestamp;

verus! {

/// Whether `c` is a control character: U+0000 to U+001F, or U+007F to U+009F.
pub open spec fn is_control(c: char) -> bool {
    c as u32 <= 0x1f || 0x7f <= c as u32 <= 0x9f
}

/// The lower-case hexadecimal digit for `v`, where `0 <= v <= 15`.
pub open spec fn hex_digit(v: int) -> u8 {
    if v < 10 {
        (ZERO + v) as u8
    } else {
        (0x57 + v) as u8
    }
}

/// A backslash and the letter `letter`.
pub open spec fn short_escape(letter: u8) -> Seq<u8> {
    seq![BACKSLASH, letter]
}

/// The numeric escape of a control character: `\u00` and two hexadecimal
/// digits.
pub open spec fn numeric_escape(c: char) -> Seq<u8> {
    seq![
        BACKSLASH,
        0x75u8,
        ZERO,
        ZERO,
        hex_digit(c as int / 16),
        hex_digit(c as int % 16),
    ]
}

/// The bytes that stand for `c` inside a JSON string: a backslash in front of
/// a quote or a backslash; `\b`, `\f`, `\n`, `\r` or `\t` for the control
/// characters that have such a name; a numeric escape for every other
/// control character; and the UTF-8 encoding of any other character.
pub open spec fn json_char(c: char) -> Seq<u8> {
    if c == '"' {
        short_escape(QUOTE)
    } else if c == '\\' {
        short_escape(BACKSLASH)
    } else if c as u32 == 0x08 {
        short_escape(0x62)
    } else if c as u32 == 0x0c {
        short_escape(0x66)
    } else if c == '\n' {
        short_escape(0x6e)
    } else if c == '\r' {
        short_escape(0x72)
    } else if c == '\t' {
        short_escape(0x74)
    } else if is_control(c) {
        numeric_escape(c)
    } else {
        encode_scalar(c as u32)
    }
}

/// The bytes that stand for the characters of `text` inside a JSON string.
pub open spec fn json_chars(text: Seq<char>) -> Seq<u8>
    decreases text.len(),
{
    if text.len() == 0 {
        Seq::empty()
    } else {
        json_chars(text.drop_last()) + json_char(text.last())
    }
}

/// The JSON string for `text`: its characters, escaped, between quotes.
pub open spec fn json_string(text: Seq<char>) -> Seq<u8> {
    seq![QUOTE] + json_chars(text) + seq![QUOTE]
}

/// The literal `null`.
pub open spec fn null_text() -> Seq<u8> {
    seq![0x6eu8, 0x75u8, 0x6cu8, 0x6cu8]
}

/// The JSON value of a column, or `None` where the accessor for the
/// column's type tag cannot read the stored value.
///
/// NULL gives `null` whatever the type tag. So does a value under a type tag
/// that is not mapped: such a value is not read, and is never written as a
/// string.
pub open spec fn json_value(column: ColumnView) -> Option<Seq<u8>> {
    if column.value is Null || json_accessor_of(column.type_tag) == Accessor::Unmapped {
        Some(null_text())
    } else {
        match fetch(json_accessor_of(column.type_tag), column.value) {
            Some(Rendered::Bare(text)) => Some(text),
            Some(Rendered::Text(text)) => Some(json_string(text)),
            None => None,
        }
    }
}

/// The text of the floating-point number that is written for the column,
/// if one is.
pub open spec fn float_written(column: ColumnView) -> Option<Seq<char>> {
    match (json_accessor_of(column.type_tag), column.value) {
        (Accessor::Float, ValueView::Float(text)) => Some(text),
        (Accessor::Double, ValueView::Double(text)) => Some(text),
        _ => None,
    }
}

/// Whether every floating-point number that is written for the row is
/// finite.
pub open spec fn floats_are_finite(row: Seq<ColumnView>) -> bool {
    forall|i: int|
        0 <= i < row.len() ==> match float_written(#[trigger] row[i]) {
            Some(text) => is_finite_text(text),
            None => true,
        }
}

/// The key of a column's member: the column name as a JSON string, and a
/// colon.
pub open spec fn json_key(column: ColumnView) -> Seq<u8> {
    json_string(column.name).push(COLON)
}

/// The members of the object for `row`, in column order, with a comma
/// between one member and the next.
pub open spec fn json_members(row: Seq<ColumnView>) -> Seq<u8>
    decreases row.len(),
{
    if row.len() == 0 {
        Seq::empty()
    } else {
        json_members(row.drop_last()) + separator((row.len() - 1) as nat) + json_key(row.last())
            + json_value(row.last()).unwrap()
    }
}

/// The line for a row of which every column can be encoded: the object and a
/// line feed.
pub open spec fn json_line(row: Seq<ColumnView>) -> Seq<u8> {
    seq![OPEN_BRACE] + json_members(row) + seq![CLOSE_BRACE, LINE_FEED]
}

/// What is written of a row whose column `k` cannot be encoded: the members
/// in front of that column, and the key of that column.
pub open spec fn json_cut_short(row: Seq<ColumnView>, k: int) -> Seq<u8> {
    seq![OPEN_BRACE] + json_members(row.take(k)) + separator(k as nat) + json_key(row[k])
}

/// Whether every column of the row can be encoded.
pub open spec fn all_encodable(row: Seq<ColumnView>) -> bool {
    forall|i: int| 0 <= i < row.len() ==> json_value(#[trigger] row[i]) is Some
}

/// Whether column `k` is the first of the row that cannot be encoded.
pub open spec fn first_unencodable(row: Seq<ColumnView>, k: int) -> bool {
    &&& 0 <= k < row.len()
    &&& json_value(row[k]) is None
    &&& forall|i: int| 0 <= i < k ==> json_value(#[trigger] row[i]) is Some
}

/// Encodes rows as JSON objects, one per line, into a byte sink held in
/// memory.
pub struct JsonWriter {
    writer: Vec<u8>,
}

impl View for JsonWriter {
    type V = Seq<u8>;

    /// The bytes written to the sink.
    closed spec fn view(&self) -> Seq<u8> {
        self.writer@
    }
}

impl JsonWriter {
    /// An encoder that appends to `writer`.
    pub fn new(writer: Vec<u8>) -> (encoder: Self)
        ensures
            encoder@ == writer@,
    {
        Self { writer }
    }

    /// Writes `string` as a JSON string.
    pub fn write_string(&mut self, string: &str)
        ensures
            final(self)@ == old(self)@ + json_string(string@),
    {
        self.writer.push(QUOTE);
        for c in it: string.chars()
            invariant
                it.seq() == string@,
                self.writer@ == old(self).writer@.push(QUOTE) + json_chars(
                    string@.take(it.index() as int),
                ),
        {
            let ghost before = self.writer@;
            proof {
                lemma_char_range(c);
            }
            let code: u32 = c as u32;
            if c == '"' {
                self.writer.push(BACKSLASH);
                self.writer.push(QUOTE);
            } else if c == '\\' {
                self.writer.push(BACKSLASH);
                self.writer.push(BACKSLASH);
            } else if code == 0x08 {
                self.writer.push(BACKSLASH);
                self.writer.push(0x62);
            } else if code == 0x0c {
                self.writer.push(BACKSLASH);
                self.writer.push(0x66);
            } else if c == '\n' {
                self.writer.push(BACKSLASH);
                self.writer.push(0x6e);
            } else if c == '\r' {
                self.writer.push(BACKSLASH);
                self.writer.push(0x72);
            } else if c == '\t' {
                self.writer.push(BACKSLASH);
                self.writer.push(0x74);
            } else if code <= 0x1f || (0x7f <= code && code <= 0x9f) {
                self.writer.push(BACKSLASH);
                self.writer.push(0x75);
                self.writer.push(ZERO);
                self.writer.push(ZERO);
                self.writer.push(hex((code / 16) as u8));
                self.writer.push(hex((code % 16) as u8));
            } else {
                push_utf8(&mut self.writer, c);
            }
            proof {
                let next = string@.take(it.index() + 1);
                assert(next.drop_last() =~= string@.take(it.index() as int));
                assert(self.writer@ =~= before + json_char(c));
                assert(self.writer@ =~= old(self).writer@.push(QUOTE) + json_chars(next));
            }
        }
        self.writer.push(QUOTE);
        proof {
            assert(string@.take(string@.len() as int) =~= string@);
            assert(self.writer@ =~= old(self).writer@ + json_string(string@));
        }
    }

    /// Writes one row as a JSON object and a line feed. The keys are the
    /// column names, in column order; a NULL value and a value whose type tag
    /// is not mapped give `null`.
    ///
    /// Where a column cannot be encoded the object is left unfinished: the
    /// members in front of that column and its key have been written, and the
    /// error names the column.
    pub fn write(&mut self, row: &Row) -> (result: Result<(), RowAccessError>)
        ensures
            all_encodable(row@) ==> result is Ok && final(self)@ == old(self)@ + json_line(row@),
            !all_encodable(row@) ==> result is Err && first_unencodable(
                row@,
                result->Err_0.column as int,
            ) && final(self)@ == old(self)@ + json_cut_short(
                row@,
                result->Err_0.column as int,
            ),
    {
        self.writer.push(OPEN_BRACE);
        let count = row.columns.len();
        let mut i: usize = 0;
        while i < count
            invariant
                i <= count,
                count == row.columns@.len(),
                forall|j: int| 0 <= j < i ==> json_value(#[trigger] row@[j]) is Some,
                self@ == old(self)@.push(OPEN_BRACE) + json_members(row@.take(i as int)),
            decreases count - i,
        {
            let column = &row.columns[i];
            if i > 0 {
                self.writer.push(COMMA);
            }
            self.write_string(column.name.as_str());
            self.writer.push(COLON);
            let ghost keyed = self@;
            let written = self.write_value(column);
            proof {
                assert(row@[i as int] == column@);
                assert(keyed =~= old(self)@ + json_cut_short(row@, i as int));
            }
            if !written {
                assert(first_unencodable(row@, i as int));
                return Err(RowAccessError { column: i });
            }
            proof {
                let next = row@.take(i + 1);
                assert(next.drop_last() =~= row@.take(i as int));
                assert(next.last() == row@[i as int]);
                assert(self@ =~= old(self)@.push(OPEN_BRACE) + json_members(next));
            }
            i = i + 1;
        }
        self.writer.push(CLOSE_BRACE);
        self.writer.push(LINE_FEED);
        proof {
            assert(row@.take(count as int) =~= row@);
            assert(self@ =~= old(self)@ + json_line(row@));
        }
        Ok(())
    }

    /// Writes the value of `column`, and says whether it could be encoded.
    /// Nothing is written of a value that cannot.
    fn write_value(&mut self, column: &Column) -> (written: bool)
        ensures
            written == (json_value(column@) is Some),
            written ==> final(self)@ == old(self)@ + json_value(column@)->Some_0,
            !written ==> final(self)@ == old(self)@,
    {
        let accessor = json_accessor(column.type_tag.as_str());
        match (&column.value, accessor) {
            (Value::Null, _) => {
                self.write_null();
            },
            (_, Accessor::Unmapped) => {
                self.write_null();
            },
            (Value::Bool(b), Accessor::Bool) => {
                push_bool(&mut self.writer, *b);
            },
            (Value::Int(n), Accessor::Int) => {
                push_decimal(&mut self.writer, *n);
            },
            (Value::Float(t), Accessor::Float) => {
                append(&mut self.writer, t.as_str().as_bytes());
            },
            (Value::Double(t), Accessor::Double) => {
                append(&mut self.writer, t.as_str().as_bytes());
            },
            (Value::Text(t), Accessor::Text) => {
                self.write_string(t.as_str());
            },
            (Value::DateTime { secs, nanos }, Accessor::DateTime) => {
                match render_timestamp(*secs, *nanos) {
                    Some(text) => {
                        self.write_string(text.as_str());
                    },
                    None => {
                        return false;
                    },
                }
            },
            _ => {
                return false;
            },
        }
        true
    }

    /// Writes the literal `null`.
    fn write_null(&mut self)
        ensures
            final(self)@ == old(self)@ + null_text(),
    {
        self.writer.push(0x6e);
        self.writer.push(0x75);
        self.writer.push(0x6c);
        self.writer.push(0x6c);
        assert(self.writer@ =~= old(self).writer@ + null_text());
    }

    /// Hands out the bytes written since the encoder was made or last
    /// drained, and leaves the sink empty.
    pub fn drain(&mut self) -> (bytes: Vec<u8>)
        ensures
            bytes@ == old(self)@,
            final(self)@ == Seq::<u8>::empty(),
    {
        let mut bytes: Vec<u8> = Vec::new();
        bytes.append(&mut self.writer);
        assert(bytes@ =~= old(self)@);
        bytes
    }

    /// Gives the sink back.
    pub fn into_inner(self) -> (writer: Vec<u8>)
        ensures
            writer@ == self@,
    {
        self.writer
    }
}

/// NULL gives the literal `null`, whatever the column's type tag.
pub proof fn lemma_null_value(column: ColumnView)
    requires
        column.value is Null,
    ensures
        json_value(column) == Some(null_text()),
{
}

/// The lower-case hexadecimal digit for `v`.
fn hex(v: u8) -> (d: u8)
    requires
        v < 16,
    ensures
        d == hex_digit(v as int),
{
    if v < 10 {
        ZERO + v
    } else {
        0x57 + v
    }
}

} // verus!
