//! What a JSON encoder has written after a whole sequence of rows: one line
//! per row, each of which is an object of its own.

use vstd::prelude::*;
use crate::json::{all_encodable, floats_are_finite, json_line};
use crate::json_object::{
    column_names, lemma_line_ends_at_line_feed, lemma_line_is_object, object_keys,
};
use crate::number::on_one_line;
use crate::row::ColumnView;
use crate::text::LINE_FEED;

verus! {

/// The sink after `rows`, written one after the other.
pub open spec fn lines_written(output: Seq<u8>, rows: Seq<Seq<ColumnView>>) -> Seq<u8>
    decreases rows.len(),
{
    if rows.len() == 0 {
        output
    } else {
        lines_written(output, rows.drop_last()) + json_line(rows.last())
    }
}

/// The lines read so far, each with its line feed, and what has been read
/// of the line at hand.
pub struct Lines {
    pub complete: Seq<Seq<u8>>,
    pub partial: Seq<u8>,
}

/// The lines after one more byte: a line feed ends the line at hand.
pub open spec fn line_step(lines: Lines, byte: u8) -> Lines {
    if byte == LINE_FEED {
        Lines { complete: lines.complete.push(lines.partial.push(byte)), partial: Seq::empty() }
    } else {
        Lines { complete: lines.complete, partial: lines.partial.push(byte) }
    }
}

/// The lines after the bytes of `input`, one after the other.
pub open spec fn lines_read(lines: Lines, input: Seq<u8>) -> Lines
    decreases input.len(),
{
    if input.len() == 0 {
        lines
    } else {
        line_step(lines_read(lines, input.drop_last()), input.last())
    }
}

/// The lines of `input`, or `None` where `input` ends in the middle of a
/// line.
pub open spec fn lines_of(input: Seq<u8>) -> Option<Seq<Seq<u8>>> {
    let lines = lines_read(Lines { complete: Seq::empty(), partial: Seq::empty() }, input);
    if lines.partial.len() == 0 {
        Some(lines.complete)
    } else {
        None
    }
}

/// The line of each row.
pub open spec fn row_lines(rows: Seq<Seq<ColumnView>>) -> Seq<Seq<u8>> {
    Seq::new(rows.len(), |i: int| json_line(rows[i]))
}

/// Whether every column of every row can be encoded.
pub open spec fn all_rows_encodable(rows: Seq<Seq<ColumnView>>) -> bool {
    forall|i: int| 0 <= i < rows.len() ==> all_encodable(#[trigger] rows[i])
}

/// Whether every floating-point number that is written for a row is finite.
pub open spec fn all_floats_finite(rows: Seq<Seq<ColumnView>>) -> bool {
    forall|i: int| 0 <= i < rows.len() ==> floats_are_finite(#[trigger] rows[i])
}

/// Reading two inputs in a row is reading their concatenation.
proof fn lemma_lines_read_concat(lines: Lines, first: Seq<u8>, second: Seq<u8>)
    ensures
        lines_read(lines, first + second) == lines_read(lines_read(lines, first), second),
    decreases second.len(),
{
    if second.len() == 0 {
        assert(first + second =~= first);
    } else {
        assert((first + second).drop_last() =~= first + second.drop_last());
        lemma_lines_read_concat(lines, first, second.drop_last());
    }
}

/// Bytes without a line feed join the line at hand.
proof fn lemma_read_within_line(lines: Lines, input: Seq<u8>)
    requires
        on_one_line(input),
    ensures
        lines_read(lines, input) == (Lines {
            complete: lines.complete,
            partial: lines.partial + input,
        }),
    decreases input.len(),
{
    if input.len() == 0 {
        assert(lines.partial + input =~= lines.partial);
    } else {
        let front = input.drop_last();
        assert forall|i: int| 0 <= i < front.len() implies #[trigger] front[i] != LINE_FEED by {
            assert(front[i] == input[i]);
        }
        lemma_read_within_line(lines, front);
        assert(input[input.len() - 1] != LINE_FEED);
        assert((lines.partial + front).push(input.last()) =~= lines.partial + input);
    }
}

/// The sink holds one line per row. Where every column of every row can be
/// encoded and every floating-point number is finite, an encoder that
/// starts with an empty sink and writes `rows` leaves a sink that falls
/// into as many lines as there are rows; the line of each row is a JSON
/// object of its own, and its keys are the names of the row's columns.
/// With no row the sink stays empty.
pub proof fn lemma_one_object_per_line(rows: Seq<Seq<ColumnView>>)
    requires
        all_rows_encodable(rows),
        all_floats_finite(rows),
    ensures
        lines_of(lines_written(Seq::empty(), rows)) == Some(row_lines(rows)),
        row_lines(rows).len() == rows.len(),
        forall|i: int|
            0 <= i < rows.len() ==> object_keys(#[trigger] row_lines(rows)[i]) == Some(
                column_names(rows[i]),
            ),
        rows.len() == 0 ==> lines_written(Seq::empty(), rows) == Seq::<u8>::empty(),
    decreases rows.len(),
{
    let start = Lines { complete: Seq::empty(), partial: Seq::empty() };
    if rows.len() == 0 {
        assert(row_lines(rows) =~= Seq::<Seq<u8>>::empty());
    } else {
        let front = rows.drop_last();
        let row = rows.last();
        assert forall|i: int| 0 <= i < front.len() implies all_encodable(#[trigger] front[i])
            && floats_are_finite(front[i]) by {
            assert(front[i] == rows[i]);
        }
        assert(all_encodable(rows[rows.len() - 1]) && floats_are_finite(rows[rows.len() - 1]));
        lemma_one_object_per_line(front);
        let before = lines_written(Seq::empty(), front);
        let line = json_line(row);
        lemma_line_ends_at_line_feed(row);
        lemma_lines_read_concat(start, before, line);
        let mid = lines_read(start, before);
        assert(line =~= line.drop_last().push(LINE_FEED));
        assert(line.drop_last().push(LINE_FEED).drop_last() =~= line.drop_last());
        lemma_read_within_line(mid, line.drop_last());
        assert(mid.partial + line.drop_last() =~= line.drop_last());
        assert(row_lines(rows) =~= row_lines(front).push(line));
        assert forall|i: int| 0 <= i < rows.len() implies object_keys(
            #[trigger] row_lines(rows)[i],
        ) == Some(column_names(rows[i])) by {
            lemma_line_is_object(rows[i]);
        }
    }
}

} // verus!
