//! The CSV encoder: one record per row, cells separated by commas, records
//! ended by a line feed, and an optional header record of column names.

use vstd::prelude::*;
use vstd::utf8::*;
use crate::access::{csv_accessor, csv_accessor_of, fetch, Accessor, Rendered};
use crate::row::{ColumnView, Row, RowAccessError, Value};
use crate::text::{
    append, lemma_char_range, lemma_scalar_bytes, push_bool, push_decimal, separator, COMMA,
    LINE_FEED, QUOTE,
};

verus! {

/// Whether a cell that holds `byte` must be quoted.
pub open spec fn is_special(byte: u8) -> bool {
    byte == QUOTE || byte == COMMA || byte == LINE_FEED
}

/// Whether `data` holds a quote, a comma or a line feed.
pub open spec fn needs_quotes(data: Seq<u8>) -> bool {
    exists|i: int| 0 <= i < data.len() && is_special(#[trigger] data[i])
}

/// `data` with every quote doubled.
pub open spec fn doubled(data: Seq<u8>) -> Seq<u8>
    decreases data.len(),
{
    if data.len() == 0 {
        Seq::empty()
    } else if data.last() == QUOTE {
        doubled(data.drop_last()).push(QUOTE).push(QUOTE)
    } else {
        doubled(data.drop_last()).push(data.last())
    }
}

/// The bytes of one cell: `data` as it stands where it holds no quote, comma
/// or line feed, and otherwise `data` between quotes with each of its quotes
/// doubled.
pub open spec fn csv_field(data: Seq<u8>) -> Seq<u8> {
    if needs_quotes(data) {
        seq![QUOTE] + doubled(data) + seq![QUOTE]
    } else {
        data
    }
}

/// What a CSV encoder is at a moment: the bytes it has written to its sink,
/// whether the header is behind it, and how many cells it has written since
/// the last record ended.
pub struct CsvState {
    pub output: Seq<u8>,
    pub header_written: bool,
    pub columns_written: nat,
}

/// The state after one more cell with the raw text `data`.
pub open spec fn cell_written(state: CsvState, data: Seq<u8>) -> CsvState {
    CsvState {
        output: state.output + separator(state.columns_written) + csv_field(data),
        header_written: state.header_written,
        columns_written: state.columns_written + 1,
    }
}

/// The state after `cells`, one after the other.
pub open spec fn cells_written(state: CsvState, cells: Seq<Seq<u8>>) -> CsvState
    decreases cells.len(),
{
    if cells.len() == 0 {
        state
    } else {
        cell_written(cells_written(state, cells.drop_last()), cells.last())
    }
}

/// The state after the record's terminator.
pub open spec fn row_finished(state: CsvState) -> CsvState {
    CsvState {
        output: state.output.push(LINE_FEED),
        header_written: state.header_written,
        columns_written: 0,
    }
}

/// The text of a value that is not NULL, or `None` where the accessor for
/// the column's type tag cannot read it.
pub open spec fn csv_value_text(column: ColumnView) -> Option<Seq<u8>> {
    match fetch(csv_accessor_of(column.type_tag), column.value) {
        Some(Rendered::Bare(text)) => Some(text),
        Some(Rendered::Text(text)) => Some(encode_utf8(text)),
        None => None,
    }
}

/// The raw text of a column's cell: nothing for NULL, and otherwise the text
/// of the value.
pub open spec fn csv_text(column: ColumnView) -> Option<Seq<u8>> {
    if column.value is Null {
        Some(Seq::empty())
    } else {
        csv_value_text(column)
    }
}

/// Whether every column of the row can be read.
pub open spec fn all_readable(row: Seq<ColumnView>) -> bool {
    forall|i: int| 0 <= i < row.len() ==> csv_text(#[trigger] row[i]) is Some
}

/// Whether column `k` is the first of the row that cannot be read.
pub open spec fn first_unreadable(row: Seq<ColumnView>, k: int) -> bool {
    &&& 0 <= k < row.len()
    &&& csv_text(row[k]) is None
    &&& forall|i: int| 0 <= i < k ==> csv_text(#[trigger] row[i]) is Some
}

/// The raw texts of the header record: the column names, in column order.
pub open spec fn header_cells(row: Seq<ColumnView>) -> Seq<Seq<u8>> {
    Seq::new(row.len(), |i: int| encode_utf8(row[i].name))
}

/// The raw texts of the data record, in column order.
pub open spec fn data_cells(row: Seq<ColumnView>) -> Seq<Seq<u8>> {
    Seq::new(row.len(), |i: int| csv_text(row[i]).unwrap())
}

/// The state once the header is behind the encoder: unchanged where it
/// already was, and otherwise after a record of the column names.
pub open spec fn header_done(state: CsvState, row: Seq<ColumnView>) -> CsvState {
    if state.header_written {
        state
    } else {
        CsvState {
            header_written: true,
            ..row_finished(cells_written(state, header_cells(row)))
        }
    }
}

/// The state after a row of which every column can be read: the header if it
/// was still due, then the data record.
pub open spec fn row_written(state: CsvState, row: Seq<ColumnView>) -> CsvState {
    row_finished(cells_written(header_done(state, row), data_cells(row)))
}

/// The state after a row whose column `k` cannot be read: the header if it
/// was still due, then the cells in front of column `k`, and no terminator.
pub open spec fn row_cut_short(state: CsvState, row: Seq<ColumnView>, k: int) -> CsvState {
    cells_written(header_done(state, row), data_cells(row).take(k))
}

/// Encodes rows as CSV records into a byte sink held in memory.
pub struct CsvWriter {
    writer: Vec<u8>,
    header_written: bool,
    columns_written: usize,
}

impl View for CsvWriter {
    type V = CsvState;

    closed spec fn view(&self) -> CsvState {
        CsvState {
            output: self.writer@,
            header_written: self.header_written,
            columns_written: self.columns_written as nat,
        }
    }
}

impl CsvWriter {
    /// An encoder that appends to `writer`. With `header` set, the first row
    /// written is preceded by a record of its column names.
    pub fn new(writer: Vec<u8>, header: bool) -> (encoder: Self)
        ensures
            encoder@ == (CsvState {
                output: writer@,
                header_written: !header,
                columns_written: 0,
            }),
    {
        Self { writer, header_written: !header, columns_written: 0 }
    }

    /// The number of cells written since the last record ended.
    pub fn columns_written(&self) -> (count: usize)
        ensures
            count == self@.columns_written,
    {
        self.columns_written
    }

    /// Writes one cell: a comma if the record already has a cell, then `data`,
    /// quoted where it has to be.
    pub fn write_cell(&mut self, data: &[u8])
        requires
            old(self)@.columns_written < usize::MAX,
        ensures
            final(self)@ == cell_written(old(self)@, data@),
    {
        if self.columns_written > 0 {
            self.writer.push(COMMA);
        }
        let ghost start = self.writer@;
        if has_special(data) {
            self.writer.push(QUOTE);
            let mut i: usize = 0;
            while i < data.len()
                invariant
                    i <= data@.len(),
                    self.writer@ == start.push(QUOTE) + doubled(data@.take(i as int)),
                    self.columns_written == old(self).columns_written,
                    self.header_written == old(self).header_written,
                decreases data@.len() - i,
            {
                let byte = data[i];
                if byte == QUOTE {
                    self.writer.push(QUOTE);
                }
                self.writer.push(byte);
                proof {
                    let next = data@.take(i + 1);
                    assert(next.drop_last() =~= data@.take(i as int));
                    assert(self.writer@ =~= start.push(QUOTE) + doubled(next));
                }
                i = i + 1;
            }
            self.writer.push(QUOTE);
            proof {
                assert(data@.take(data@.len() as int) =~= data@);
                assert(self.writer@ =~= start + csv_field(data@));
            }
        } else {
            append(&mut self.writer, data);
        }
        self.columns_written = self.columns_written + 1;
        assert(self@.output =~= cell_written(old(self)@, data@).output);
    }

    /// Ends the record with a line feed.
    pub fn finish_row(&mut self)
        ensures
            final(self)@ == row_finished(old(self)@),
    {
        self.writer.push(LINE_FEED);
        self.columns_written = 0;
    }

    /// Writes one row: on the first call of an encoder made with a header, a
    /// record of the column names, and then the record of the row's values.
    /// A NULL value gives an empty cell.
    ///
    /// Where a column cannot be read the row is left unfinished: the cells in
    /// front of that column have been written, and the error names the column.
    pub fn write(&mut self, row: &Row) -> (result: Result<(), RowAccessError>)
        requires
            old(self)@.columns_written == 0 || old(self)@.columns_written + row@.len()
                <= usize::MAX,
        ensures
            all_readable(row@) ==> result is Ok && final(self)@ == row_written(old(self)@, row@),
            !all_readable(row@) ==> result is Err && first_unreadable(
                row@,
                result->Err_0.column as int,
            ) && final(self)@ == row_cut_short(old(self)@, row@, result->Err_0.column as int),
    {
        let count = row.columns.len();
        if !self.header_written {
            let mut i: usize = 0;
            while i < count
                invariant
                    i <= count,
                    count == row.columns@.len(),
                    old(self)@.columns_written + count <= usize::MAX,
                    self@ == cells_written(old(self)@, header_cells(row@).take(i as int)),
                decreases count - i,
            {
                proof {
                    lemma_cells_appended(old(self)@, header_cells(row@).take(i as int));
                }
                self.write_cell(row.columns[i].name.as_str().as_bytes());
                proof {
                    let next = header_cells(row@).take(i + 1);
                    assert(next.drop_last() =~= header_cells(row@).take(i as int));
                }
                i = i + 1;
            }
            proof {
                assert(header_cells(row@).take(count as int) =~= header_cells(row@));
            }
            self.finish_row();
            self.header_written = true;
        }
        let ghost ready = self@;
        assert(ready == header_done(old(self)@, row@));
        let mut i: usize = 0;
        while i < count
            invariant
                i <= count,
                count == row.columns@.len(),
                ready == header_done(old(self)@, row@),
                ready.columns_written + count <= usize::MAX,
                forall|j: int| 0 <= j < i ==> csv_text(#[trigger] row@[j]) is Some,
                self@ == cells_written(ready, data_cells(row@).take(i as int)),
            decreases count - i,
        {
            proof {
                lemma_cells_appended(ready, data_cells(row@).take(i as int));
            }
            match get_str(row, i) {
                Ok(Some(text)) => {
                    self.write_cell(text.as_slice());
                },
                Ok(None) => {
                    self.write_cell(&[]);
                },
                Err(error) => {
                    assert(first_unreadable(row@, i as int));
                    return Err(error);
                },
            }
            proof {
                let next = data_cells(row@).take(i + 1);
                assert(next.drop_last() =~= data_cells(row@).take(i as int));
            }
            i = i + 1;
        }
        proof {
            assert(data_cells(row@).take(count as int) =~= data_cells(row@));
        }
        self.finish_row();
        Ok(())
    }

    /// Hands out the bytes written since the encoder was made or last
    /// drained, and leaves the sink empty. The encoder keeps its place in the
    /// stream.
    pub fn drain(&mut self) -> (bytes: Vec<u8>)
        ensures
            bytes@ == old(self)@.output,
            final(self)@ == (CsvState { output: Seq::empty(), ..old(self)@ }),
    {
        let mut bytes: Vec<u8> = Vec::new();
        bytes.append(&mut self.writer);
        assert(bytes@ =~= old(self)@.output);
        bytes
    }

    /// Gives the sink back.
    pub fn into_inner(self) -> (writer: Vec<u8>)
        ensures
            writer@ == self@.output,
    {
        self.writer
    }
}

/// Whether `data` holds a quote, a comma or a line feed.
fn has_special(data: &[u8]) -> (found: bool)
    ensures
        found == needs_quotes(data@),
{
    let mut i: usize = 0;
    while i < data.len()
        invariant
            i <= data@.len(),
            forall|j: int| 0 <= j < i ==> !is_special(#[trigger] data@[j]),
        decreases data@.len() - i,
    {
        let byte = data[i];
        if byte == QUOTE || byte == COMMA || byte == LINE_FEED {
            return true;
        }
        i = i + 1;
    }
    false
}

/// The text of the value at column `index`: `None` for NULL, and otherwise
/// the rendering the column's type tag selects: `true` or `false` for
/// `BOOLEAN`, decimal digits for a tag that contains `INT`, the number's
/// decimal text for `FLOAT` and `DOUBLE`, and the stored text for every other
/// tag.
pub fn get_str(row: &Row, index: usize) -> (result: Result<Option<Vec<u8>>, RowAccessError>)
    requires
        index < row@.len(),
    ensures
        row@[index as int].value is Null ==> result == Ok::<Option<Vec<u8>>, RowAccessError>(None),
        !(row@[index as int].value is Null) ==> match csv_value_text(row@[index as int]) {
            Some(text) => result is Ok && result->Ok_0 is Some && result->Ok_0->Some_0@ == text,
            None => result == Err::<Option<Vec<u8>>, RowAccessError>(
                RowAccessError { column: index },
            ),
        },
{
    let column = &row.columns[index];
    let accessor = csv_accessor(column.type_tag.as_str());
    let mut text: Vec<u8> = Vec::new();
    match (&column.value, accessor) {
        (Value::Null, _) => {
            return Ok(None);
        },
        (Value::Bool(b), Accessor::Bool) => {
            push_bool(&mut text, *b);
        },
        (Value::Int(n), Accessor::Int) => {
            push_decimal(&mut text, *n);
        },
        (Value::Float(t), Accessor::Float) => {
            append(&mut text, t.as_str().as_bytes());
        },
        (Value::Double(t), Accessor::Double) => {
            append(&mut text, t.as_str().as_bytes());
        },
        (Value::Text(t), Accessor::Text) => {
            append(&mut text, t.as_str().as_bytes());
        },
        _ => {
            return Err(RowAccessError { column: index });
        },
    }
    assert(text@ =~= csv_value_text(row@[index as int])->Some_0);
    Ok(Some(text))
}

/// A cell without quote, comma or line feed is the raw text, byte for byte.
pub proof fn lemma_plain_cell(data: Seq<u8>)
    requires
        !needs_quotes(data),
    ensures
        csv_field(data) == data,
{
}

/// A cell with a quote, a comma or a line feed stands between quotes, with
/// every quote of its text doubled and every other byte as it is.
pub proof fn lemma_quoted_cell(data: Seq<u8>, at: int)
    requires
        0 <= at < data.len(),
        is_special(data[at]),
    ensures
        csv_field(data) == seq![QUOTE] + doubled(data) + seq![QUOTE],
        csv_field(data).len() == data.len() + quotes_in(data) + 2,
{
    lemma_doubled_len(data);
}

/// The number of quotes in `data`.
pub open spec fn quotes_in(data: Seq<u8>) -> nat
    decreases data.len(),
{
    if data.len() == 0 {
        0
    } else if data.last() == QUOTE {
        quotes_in(data.drop_last()) + 1
    } else {
        quotes_in(data.drop_last())
    }
}

/// Doubling adds one byte for each quote.
pub proof fn lemma_doubled_len(data: Seq<u8>)
    ensures
        doubled(data).len() == data.len() + quotes_in(data),
    decreases data.len(),
{
    if data.len() > 0 {
        lemma_doubled_len(data.drop_last());
    }
}

/// NULL gives an empty cell.
pub proof fn lemma_null_cell(column: ColumnView)
    requires
        column.value is Null,
    ensures
        csv_text(column) == Some(Seq::<u8>::empty()),
        csv_field(csv_text(column).unwrap()) == Seq::<u8>::empty(),
{
    let empty = Seq::<u8>::empty();
    assert(!needs_quotes(empty));
}

/// Whether `c` is a quote, a comma or a line feed.
pub open spec fn is_special_char(c: char) -> bool {
    c == '"' || c == ',' || c == '\n'
}

/// Whether `text` holds a quote, a comma or a line feed.
pub open spec fn text_needs_quotes(text: Seq<char>) -> bool {
    exists|i: int| 0 <= i < text.len() && is_special_char(#[trigger] text[i])
}

/// The bytes of a text hold a quote, a comma or a line feed exactly where
/// its characters do: the cell of a text without them is its UTF-8 encoding
/// as it stands.
pub proof fn lemma_text_cell(text: Seq<char>)
    ensures
        needs_quotes(encode_utf8(text)) == text_needs_quotes(text),
        !text_needs_quotes(text) ==> csv_field(encode_utf8(text)) == encode_utf8(text),
    decreases text.len(),
{
    let bytes = encode_utf8(text);
    if text.len() > 0 {
        let first = encode_scalar(text[0] as u32);
        let rest = text.drop_first();
        lemma_char_range(text[0]);
        lemma_scalar_bytes(text[0]);
        lemma_text_cell(rest);
        assert(bytes =~= first + encode_utf8(rest));
        if text_needs_quotes(text) {
            let i = choose|i: int| 0 <= i < text.len() && is_special_char(#[trigger] text[i]);
            if i == 0 {
                assert(is_special(bytes[0]));
            } else {
                assert(is_special_char(rest[i - 1]));
                let j = choose|j: int|
                    0 <= j < encode_utf8(rest).len() && is_special(#[trigger] encode_utf8(rest)[j]);
                assert(is_special(bytes[first.len() + j]));
            }
        }
        if needs_quotes(bytes) {
            let j = choose|j: int| 0 <= j < bytes.len() && is_special(#[trigger] bytes[j]);
            if j < first.len() {
                assert(is_special_char(text[0]));
            } else {
                assert(is_special(encode_utf8(rest)[j - first.len()]));
                let i = choose|i: int| 0 <= i < rest.len() && is_special_char(#[trigger] rest[i]);
                assert(is_special_char(text[i + 1]));
            }
        }
    }
}

/// What an encoder adds to its sink depends on the sink only through the
/// number of cells its record already has.
pub proof fn lemma_cells_appended(state: CsvState, cells: Seq<Seq<u8>>)
    ensures
        cells_written(state, cells).output == state.output + cells_written(
            CsvState { output: Seq::empty(), ..state },
            cells,
        ).output,
        cells_written(state, cells).columns_written == state.columns_written + cells.len(),
        cells_written(state, cells).header_written == state.header_written,
    decreases cells.len(),
{
    let bare = CsvState { output: Seq::empty(), ..state };
    if cells.len() == 0 {
        assert(state.output + bare.output =~= state.output);
    } else {
        lemma_cells_appended(state, cells.drop_last());
        assert(cells_written(state, cells).output =~= state.output + cells_written(
            bare,
            cells,
        ).output);
    }
}

} // verus!
