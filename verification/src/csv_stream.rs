//! What a CSV encoder has written after a whole sequence of rows: the header
//! once, in front of the first row, and one record per row.

use vstd::prelude::*;
use crate::csv::{
    all_readable, cells_written, csv_text, data_cells, header_cells, header_done,
    lemma_cells_appended, row_written, CsvState,
};
use crate::csv_reader::{
    at_record_start, csv_record, fresh, lemma_read_concat, lemma_record_round_trip, read,
    records_of, Reader,
};
use crate::row::ColumnView;

verus! {

/// The state after `rows`, written one after the other.
pub open spec fn rows_written(state: CsvState, rows: Seq<Seq<ColumnView>>) -> CsvState
    decreases rows.len(),
{
    if rows.len() == 0 {
        state
    } else {
        row_written(rows_written(state, rows.drop_last()), rows.last())
    }
}

/// The data records of `rows`, one after the other.
pub open spec fn data_bytes(rows: Seq<Seq<ColumnView>>) -> Seq<u8>
    decreases rows.len(),
{
    if rows.len() == 0 {
        Seq::empty()
    } else {
        data_bytes(rows.drop_last()) + csv_record(data_cells(rows.last()))
    }
}

/// The header record of a stream: the names of the first row's columns where
/// a header is due and there is a row, and nothing otherwise.
pub open spec fn header_bytes(header_due: bool, rows: Seq<Seq<ColumnView>>) -> Seq<u8> {
    if header_due && rows.len() > 0 {
        csv_record(header_cells(rows[0]))
    } else {
        Seq::empty()
    }
}

/// The cells of the data record of each row.
pub open spec fn data_records(rows: Seq<Seq<ColumnView>>) -> Seq<Seq<Seq<u8>>> {
    Seq::new(rows.len(), |i: int| data_cells(rows[i]))
}

/// The cells of the records of a stream: the names of the first row's
/// columns where a header is due and there is a row, then the cells of each
/// row.
pub open spec fn stream_records(header_due: bool, rows: Seq<Seq<ColumnView>>) -> Seq<
    Seq<Seq<u8>>,
> {
    if header_due && rows.len() > 0 {
        seq![header_cells(rows[0])] + data_records(rows)
    } else {
        data_records(rows)
    }
}

/// Whether every column of every row can be read.
pub open spec fn all_rows_readable(rows: Seq<Seq<ColumnView>>) -> bool {
    forall|i: int| 0 <= i < rows.len() ==> all_readable(#[trigger] rows[i])
}

/// Whether every row has at least one column.
pub open spec fn no_row_empty(rows: Seq<Seq<ColumnView>>) -> bool {
    forall|i: int| 0 <= i < rows.len() ==> (#[trigger] rows[i]).len() > 0
}

/// One row adds to the sink the header record, if it is still due, and the
/// row's data record.
pub proof fn lemma_row_bytes(state: CsvState, row: Seq<ColumnView>)
    requires
        state.columns_written == 0,
    ensures
        row_written(state, row).output == state.output + header_bytes(
            !state.header_written,
            seq![row],
        ) + csv_record(data_cells(row)),
        row_written(state, row).header_written,
        row_written(state, row).columns_written == 0,
{
    let ready = header_done(state, row);
    lemma_cells_appended(state, header_cells(row));
    lemma_cells_appended(ready, data_cells(row));
    lemma_cells_appended(CsvState { output: Seq::empty(), ..ready }, data_cells(row));
    lemma_cells_appended(CsvState { output: Seq::empty(), ..state }, header_cells(row));
    let zero = CsvState { output: Seq::empty(), header_written: true, columns_written: 0 };
    lemma_bytes_whatever_header(CsvState { output: Seq::empty(), ..ready }, zero, data_cells(row));
    lemma_bytes_whatever_header(
        CsvState { output: Seq::empty(), ..state },
        zero,
        header_cells(row),
    );
    assert(seq![row][0] == row);
    assert(row_written(state, row).output =~= state.output + header_bytes(
        !state.header_written,
        seq![row],
    ) + csv_record(data_cells(row)));
}

/// The bytes of cells do not depend on whether the header is written.
proof fn lemma_bytes_whatever_header(one: CsvState, other: CsvState, cells: Seq<Seq<u8>>)
    requires
        one.output == other.output,
        one.columns_written == other.columns_written,
    ensures
        cells_written(one, cells).output == cells_written(other, cells).output,
        cells_written(one, cells).columns_written == cells_written(other, cells).columns_written,
    decreases cells.len(),
{
    if cells.len() > 0 {
        lemma_bytes_whatever_header(one, other, cells.drop_last());
    }
}

/// The header is written exactly once. An encoder at the start of a record
/// that writes `rows` adds to its sink the header record, if one is due and
/// there is a row, and then one data record for each row; with no row it
/// adds nothing, and afterwards no header is due any more.
pub proof fn lemma_header_once(state: CsvState, rows: Seq<Seq<ColumnView>>)
    requires
        state.columns_written == 0,
    ensures
        rows_written(state, rows).output == state.output + header_bytes(
            !state.header_written,
            rows,
        ) + data_bytes(rows),
        rows_written(state, rows).columns_written == 0,
        rows_written(state, rows).header_written == (state.header_written || rows.len() > 0),
        rows.len() == 0 ==> rows_written(state, rows) == state,
    decreases rows.len(),
{
    if rows.len() == 0 {
        assert(state.output + header_bytes(!state.header_written, rows) + data_bytes(rows)
            =~= state.output);
    } else {
        let front = rows.drop_last();
        lemma_header_once(state, front);
        let before = rows_written(state, front);
        lemma_row_bytes(before, rows.last());
        if front.len() == 0 {
            assert(rows[0] == rows.last());
        } else {
            assert(front[0] == rows[0]);
        }
        assert(rows_written(state, rows).output =~= state.output + header_bytes(
            !state.header_written,
            rows,
        ) + data_bytes(rows));
    }
}

/// A reader at the start of a record reads the data records of rows that
/// each have a column as the cells of each row.
proof fn lemma_read_data(reader: Reader, rows: Seq<Seq<ColumnView>>)
    requires
        at_record_start(reader),
        no_row_empty(rows),
    ensures
        read(reader, data_bytes(rows)) == (Reader {
            records: reader.records + data_records(rows),
            ..reader
        }),
    decreases rows.len(),
{
    let cells = data_records(rows);
    if rows.len() == 0 {
        assert(reader.records + cells =~= reader.records);
    } else {
        let front = rows.drop_last();
        assert forall|i: int| 0 <= i < front.len() implies (#[trigger] front[i]).len() > 0 by {
            assert(front[i] == rows[i]);
        }
        lemma_read_data(reader, front);
        let before = read(reader, data_bytes(front));
        lemma_read_concat(reader, data_bytes(front), csv_record(data_cells(rows.last())));
        assert(rows[rows.len() - 1].len() > 0);
        lemma_record_round_trip(before, data_cells(rows.last()));
        let front_cells = data_records(front);
        assert(cells =~= front_cells.push(data_cells(rows.last())));
        assert(reader.records + cells =~= (reader.records + front_cells).push(
            data_cells(rows.last()),
        ));
        assert(reader.record =~= Seq::empty());
        assert(reader.field =~= Seq::empty());
    }
}

/// The stream reads back as it was written. Where every column of every
/// row can be read and every row has a column, an encoder that starts at the
/// start of a record and writes `rows` leaves a sink whose new records are
/// the column names of the first row, if a header was due, and then, for
/// each row in order, a record with one cell per column that holds the
/// column's text.
pub proof fn lemma_stream_round_trip(state: CsvState, rows: Seq<Seq<ColumnView>>)
    requires
        state.columns_written == 0,
        at_record_start(read(fresh(), state.output)),
        all_rows_readable(rows),
        no_row_empty(rows),
    ensures
        read(fresh(), rows_written(state, rows).output) == (Reader {
            records: read(fresh(), state.output).records + stream_records(
                !state.header_written,
                rows,
            ),
            ..read(fresh(), state.output)
        }),
{
    let start = read(fresh(), state.output);
    let head = header_bytes(!state.header_written, rows);
    lemma_header_once(state, rows);
    lemma_read_concat(fresh(), state.output + head, data_bytes(rows));
    lemma_read_concat(fresh(), state.output, head);
    let data = data_records(rows);
    if !state.header_written && rows.len() > 0 {
        assert(rows[0].len() > 0);
        lemma_record_round_trip(start, header_cells(rows[0]));
        let headed = read(start, head);
        lemma_read_data(headed, rows);
        assert(start.records.push(header_cells(rows[0])) + data =~= start.records
            + stream_records(!state.header_written, rows));
    } else {
        assert(state.output + head =~= state.output);
        lemma_read_data(start, rows);
    }
}

/// The state of an encoder that has an empty sink and has written nothing.
pub open spec fn new_state(header: bool) -> CsvState {
    CsvState { output: Seq::empty(), header_written: !header, columns_written: 0 }
}

/// The sink of a new encoder reads back as the stream that was written:
/// the column names of the first row, if the encoder was made with a header
/// and there is a row, and then one record per row. With no row the sink
/// holds no record.
pub proof fn lemma_new_stream_round_trip(header: bool, rows: Seq<Seq<ColumnView>>)
    requires
        all_rows_readable(rows),
        no_row_empty(rows),
    ensures
        records_of(rows_written(new_state(header), rows).output) == Some(
            stream_records(header, rows),
        ),
        rows.len() == 0 ==> rows_written(new_state(header), rows).output == Seq::<u8>::empty(),
{
    lemma_stream_round_trip(new_state(header), rows);
    assert(fresh().records + stream_records(header, rows) =~= stream_records(header, rows));
}

/// Every record has one cell per column: the data record of a row that
/// has a column and of which every column can be read is read as a single
/// record with as many cells as the row has columns, each the text of its
/// column.
pub proof fn lemma_one_cell_per_column(row: Seq<ColumnView>)
    requires
        all_readable(row),
        row.len() > 0,
    ensures
        records_of(csv_record(data_cells(row))) == Some(seq![data_cells(row)]),
        data_cells(row).len() == row.len(),
        forall|i: int| 0 <= i < row.len() ==> Some(data_cells(row)[i]) == csv_text(row[i]),
{
    lemma_record_round_trip(fresh(), data_cells(row));
    assert(fresh().records.push(data_cells(row)) =~= seq![data_cells(row)]);
}

} // verus!
