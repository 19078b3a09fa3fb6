//! A reader for CSV as RFC 4180 describes it, with the line feed as the
//! record terminator, and the proofs that it gets back from the encoder's
//! output the cells and records that were written.

use vstd::prelude::*;
use crate::csv::{
    cells_written, csv_field, doubled, is_special, lemma_cells_appended, needs_quotes,
    row_finished, CsvState,
};
use crate::text::{separator, COMMA, LINE_FEED, QUOTE};

verus! {

/// Where the reader stands within a field.
pub enum Mode {
    /// At the start of a field.
    Start,
    /// Inside a field that did not open with a quote.
    Unquoted,
    /// Inside a field that opened with a quote.
    Quoted,
    /// Behind a quote inside a quoted field: the first half of a doubled
    /// quote, or the end of the field.
    QuoteSeen,
    /// The input is not CSV.
    Invalid,
}

/// The reader's state: the records read so far, the fields read so far of
/// the record at hand, and what has been read of the field at hand.
pub struct Reader {
    pub records: Seq<Seq<Seq<u8>>>,
    pub record: Seq<Seq<u8>>,
    pub field: Seq<u8>,
    pub mode: Mode,
}

/// The reader in front of the first byte.
pub open spec fn fresh() -> Reader {
    Reader { records: Seq::empty(), record: Seq::empty(), field: Seq::empty(), mode: Mode::Start }
}

/// Whether the reader stands at the start of a record.
pub open spec fn at_record_start(reader: Reader) -> bool {
    reader.mode is Start && reader.record.len() == 0 && reader.field.len() == 0
}

/// The field at hand is complete and a new one begins.
pub open spec fn end_field(reader: Reader) -> Reader {
    Reader {
        records: reader.records,
        record: reader.record.push(reader.field),
        field: Seq::empty(),
        mode: Mode::Start,
    }
}

/// The record at hand is complete and a new one begins.
pub open spec fn end_record(reader: Reader) -> Reader {
    Reader {
        records: reader.records.push(reader.record.push(reader.field)),
        record: Seq::empty(),
        field: Seq::empty(),
        mode: Mode::Start,
    }
}

/// `byte` becomes part of the field at hand.
pub open spec fn keep(reader: Reader, byte: u8, mode: Mode) -> Reader {
    Reader { field: reader.field.push(byte), mode, ..reader }
}

/// The reader after one more byte.
pub open spec fn step(reader: Reader, byte: u8) -> Reader {
    match reader.mode {
        Mode::Start => if byte == QUOTE {
            Reader { mode: Mode::Quoted, ..reader }
        } else if byte == COMMA {
            end_field(reader)
        } else if byte == LINE_FEED {
            end_record(reader)
        } else {
            keep(reader, byte, Mode::Unquoted)
        },
        Mode::Unquoted => if byte == QUOTE {
            Reader { mode: Mode::Invalid, ..reader }
        } else if byte == COMMA {
            end_field(reader)
        } else if byte == LINE_FEED {
            end_record(reader)
        } else {
            keep(reader, byte, Mode::Unquoted)
        },
        Mode::Quoted => if byte == QUOTE {
            Reader { mode: Mode::QuoteSeen, ..reader }
        } else {
            keep(reader, byte, Mode::Quoted)
        },
        Mode::QuoteSeen => if byte == QUOTE {
            keep(reader, byte, Mode::Quoted)
        } else if byte == COMMA {
            end_field(reader)
        } else if byte == LINE_FEED {
            end_record(reader)
        } else {
            Reader { mode: Mode::Invalid, ..reader }
        },
        Mode::Invalid => reader,
    }
}

/// The reader after the bytes of `input`, one after the other.
pub open spec fn read(reader: Reader, input: Seq<u8>) -> Reader
    decreases input.len(),
{
    if input.len() == 0 {
        reader
    } else {
        step(read(reader, input.drop_last()), input.last())
    }
}

/// The records of `input`, or `None` where `input` is not a sequence of
/// complete records.
pub open spec fn records_of(input: Seq<u8>) -> Option<Seq<Seq<Seq<u8>>>> {
    let reader = read(fresh(), input);
    if at_record_start(reader) {
        Some(reader.records)
    } else {
        None
    }
}

/// Whether the reader stands behind a complete field, in front of the
/// separator or terminator that follows it.
pub open spec fn at_field_end(reader: Reader) -> bool {
    reader.mode is Start || reader.mode is Unquoted || reader.mode is QuoteSeen
}

/// Reading two inputs in a row is reading their concatenation.
pub proof fn lemma_read_concat(reader: Reader, first: Seq<u8>, second: Seq<u8>)
    ensures
        read(reader, first + second) == read(read(reader, first), second),
    decreases second.len(),
{
    if second.len() == 0 {
        assert(first + second =~= first);
    } else {
        assert((first + second).drop_last() =~= first + second.drop_last());
        lemma_read_concat(reader, first, second.drop_last());
    }
}

/// Reading one byte is one step.
pub proof fn lemma_read_push(reader: Reader, input: Seq<u8>, byte: u8)
    ensures
        read(reader, input.push(byte)) == step(read(reader, input), byte),
{
    assert(input.push(byte).drop_last() =~= input);
}

/// A field without quote, comma or line feed is read as it stands.
proof fn lemma_read_plain(reader: Reader, data: Seq<u8>)
    requires
        reader.mode is Start || reader.mode is Unquoted,
        !needs_quotes(data),
    ensures
        read(reader, data) == (Reader {
            field: reader.field + data,
            mode: if data.len() == 0 {
                reader.mode
            } else {
                Mode::Unquoted
            },
            ..reader
        }),
    decreases data.len(),
{
    if data.len() == 0 {
        assert(reader.field + data =~= reader.field);
    } else {
        let front = data.drop_last();
        assert forall|i: int| 0 <= i < front.len() implies !is_special(#[trigger] front[i]) by {
            assert(front[i] == data[i]);
        }
        assert(!is_special(data[data.len() - 1]));
        lemma_read_plain(reader, front);
        assert(reader.field + data =~= (reader.field + front).push(data.last()));
    }
}

/// Inside quotes, data with its quotes doubled is read as the data.
proof fn lemma_read_doubled(reader: Reader, data: Seq<u8>)
    requires
        reader.mode is Quoted,
    ensures
        read(reader, doubled(data)) == (Reader { field: reader.field + data, ..reader }),
    decreases data.len(),
{
    if data.len() == 0 {
        assert(reader.field + data =~= reader.field);
    } else {
        let front = data.drop_last();
        lemma_read_doubled(reader, front);
        assert(reader.field + data =~= (reader.field + front).push(data.last()));
        if data.last() == QUOTE {
            lemma_read_push(reader, doubled(front).push(QUOTE), QUOTE);
            lemma_read_push(reader, doubled(front), QUOTE);
        } else {
            lemma_read_push(reader, doubled(front), data.last());
        }
    }
}

/// Every cell reads back as the data it was written from: from the start of
/// a field, the reader that has read the cell holds the data as its field,
/// and stands at the end of that field.
pub proof fn lemma_field_round_trip(reader: Reader, data: Seq<u8>)
    requires
        reader.mode is Start,
    ensures
        read(reader, csv_field(data)).field == reader.field + data,
        read(reader, csv_field(data)).record == reader.record,
        read(reader, csv_field(data)).records == reader.records,
        at_field_end(read(reader, csv_field(data))),
{
    if needs_quotes(data) {
        let opened = Reader { mode: Mode::Quoted, ..reader };
        let body = seq![QUOTE] + doubled(data);
        assert(seq![QUOTE] =~= Seq::<u8>::empty().push(QUOTE));
        lemma_read_push(reader, Seq::empty(), QUOTE);
        assert(read(reader, seq![QUOTE]) == opened);
        lemma_read_concat(reader, seq![QUOTE], doubled(data));
        lemma_read_doubled(opened, data);
        assert(csv_field(data) =~= body.push(QUOTE));
        lemma_read_push(reader, body, QUOTE);
    } else {
        lemma_read_plain(reader, data);
    }
}

/// The bytes of one record: its cells, separated by commas, and a line feed.
pub open spec fn csv_record(cells: Seq<Seq<u8>>) -> Seq<u8> {
    row_finished(
        cells_written(
            CsvState { output: Seq::empty(), header_written: true, columns_written: 0 },
            cells,
        ),
    ).output
}

/// A reader at the start of a record that reads the cells of a record that
/// is not empty holds all cells but the last as its record and the last as
/// its field.
proof fn lemma_read_cells(reader: Reader, cells: Seq<Seq<u8>>)
    requires
        at_record_start(reader),
        cells.len() > 0,
    ensures
        ({
            let after = read(
                reader,
                cells_written(
                    CsvState { output: Seq::empty(), header_written: true, columns_written: 0 },
                    cells,
                ).output,
            );
            &&& after.records == reader.records
            &&& after.record == cells.drop_last()
            &&& after.field == cells.last()
            &&& at_field_end(after)
        }),
    decreases cells.len(),
{
    let zero = CsvState { output: Seq::empty(), header_written: true, columns_written: 0 };
    let front = cells.drop_last();
    let written = cells_written(zero, front);
    lemma_cells_appended(zero, front);
    if front.len() == 0 {
        assert(written == zero);
        assert(cells_written(zero, cells).output =~= csv_field(cells.last()));
        lemma_field_round_trip(reader, cells.last());
        assert(reader.field + cells.last() =~= cells.last());
        assert(reader.record =~= cells.drop_last());
    } else {
        lemma_read_cells(reader, front);
        let before = read(reader, written.output);
        let separated = step(before, COMMA);
        assert(separated == end_field(before));
        assert(separator(written.columns_written) =~= Seq::<u8>::empty().push(COMMA));
        assert(cells_written(zero, cells).output =~= written.output.push(COMMA) + csv_field(
            cells.last(),
        ));
        lemma_read_push(reader, written.output, COMMA);
        lemma_read_concat(reader, written.output.push(COMMA), csv_field(cells.last()));
        lemma_field_round_trip(separated, cells.last());
        assert(separated.field + cells.last() =~= cells.last());
        assert(front.drop_last().push(front.last()) =~= front);
    }
}

/// A record reads back as the cells it was written from: a reader at the
/// start of a record that reads the bytes of a record with at least one cell
/// has gained exactly that record, and stands at the start of the next.
pub proof fn lemma_record_round_trip(reader: Reader, cells: Seq<Seq<u8>>)
    requires
        at_record_start(reader),
        cells.len() > 0,
    ensures
        read(reader, csv_record(cells)) == (Reader {
            records: reader.records.push(cells),
            record: Seq::empty(),
            field: Seq::empty(),
            mode: Mode::Start,
        }),
{
    let zero = CsvState { output: Seq::empty(), header_written: true, columns_written: 0 };
    lemma_read_cells(reader, cells);
    lemma_read_push(reader, cells_written(zero, cells).output, LINE_FEED);
    assert(cells.drop_last().push(cells.last()) =~= cells);
}

} // verus!
