use dbpipe::csv::CsvWriter;
use dbpipe::json::JsonWriter;
use dbpipe::row::{Column, Row, RowAccessError, Value};

fn column(name: &str, type_tag: &str, value: Value) -> Column {
    Column { name: name.to_string(), type_tag: type_tag.to_string(), value }
}

fn text(value: &str) -> Value {
    Value::Text(value.to_string())
}

fn csv_of(rows: &[Row], header: bool) -> String {
    let mut writer = CsvWriter::new(Vec::new(), header);
    for row in rows {
        assert_eq!(writer.write(row), Ok(()));
    }
    String::from_utf8(writer.into_inner()).unwrap()
}

fn json_of(rows: &[Row]) -> String {
    let mut writer = JsonWriter::new(Vec::new());
    for row in rows {
        assert_eq!(writer.write(row), Ok(()));
    }
    String::from_utf8(writer.into_inner()).unwrap()
}

fn id_and_name() -> Row {
    Row {
        columns: vec![
            column("id", "INTEGER", Value::Int(42)),
            column("name", "TEXT", text("O'Brien")),
        ],
    }
}

#[test]
fn scenario_id_and_name_csv() {
    assert_eq!(csv_of(&[id_and_name()], true), "id,name\n42,O'Brien\n");
}

#[test]
fn scenario_id_and_name_json() {
    assert_eq!(json_of(&[id_and_name()]), "{\"id\":42,\"name\":\"O'Brien\"}\n");
}

#[test]
fn scenario_null_note_csv() {
    let row = Row { columns: vec![column("note", "TEXT", Value::Null)] };
    assert_eq!(csv_of(&[row], false), "\n");
}

#[test]
fn scenario_null_note_json() {
    let row = Row { columns: vec![column("note", "TEXT", Value::Null)] };
    assert_eq!(json_of(&[row]), "{\"note\":null}\n");
}

#[test]
fn scenario_quoted_description_csv() {
    let row = Row { columns: vec![column("desc", "TEXT", text("He said \"hi\",\nbye"))] };
    assert_eq!(csv_of(&[row], false), "\"He said \"\"hi\"\",\nbye\"\n");
}

#[test]
fn scenario_quoted_description_json() {
    let row = Row { columns: vec![column("desc", "TEXT", text("He said \"hi\",\nbye"))] };
    assert_eq!(json_of(&[row]), "{\"desc\":\"He said \\\"hi\\\",\\nbye\"}\n");
}

#[test]
fn no_rows_write_nothing() {
    assert_eq!(csv_of(&[], true), "");
    assert_eq!(csv_of(&[], false), "");
    assert_eq!(json_of(&[]), "");
}

#[test]
fn header_is_written_once() {
    let rows = vec![id_and_name(), id_and_name(), id_and_name()];
    assert_eq!(csv_of(&rows, true), "id,name\n42,O'Brien\n42,O'Brien\n42,O'Brien\n");
    assert_eq!(csv_of(&rows, false), "42,O'Brien\n42,O'Brien\n42,O'Brien\n");
}

#[test]
fn header_survives_draining() {
    let mut writer = CsvWriter::new(Vec::new(), true);
    assert_eq!(writer.write(&id_and_name()), Ok(()));
    assert_eq!(writer.drain(), b"id,name\n42,O'Brien\n".to_vec());
    assert_eq!(writer.write(&id_and_name()), Ok(()));
    assert_eq!(writer.drain(), b"42,O'Brien\n".to_vec());
    assert_eq!(writer.drain(), Vec::<u8>::new());
    assert_eq!(writer.into_inner(), Vec::<u8>::new());
}

#[test]
fn json_drain_empties_the_sink() {
    let mut writer = JsonWriter::new(b"x".to_vec());
    assert_eq!(writer.write(&id_and_name()), Ok(()));
    assert_eq!(writer.drain(), b"x{\"id\":42,\"name\":\"O'Brien\"}\n".to_vec());
    assert_eq!(writer.into_inner(), Vec::<u8>::new());
}

#[test]
fn writers_append_to_what_the_sink_holds() {
    let mut writer = CsvWriter::new(b"# export\n".to_vec(), false);
    assert_eq!(writer.write(&id_and_name()), Ok(()));
    assert_eq!(writer.into_inner(), b"# export\n42,O'Brien\n".to_vec());
}

#[test]
fn duplicate_names_are_kept() {
    let row = Row {
        columns: vec![column("id", "INT", Value::Int(1)), column("id", "INT", Value::Int(2))],
    };
    assert_eq!(csv_of(&[row.clone()], true), "id,id\n1,2\n");
    assert_eq!(json_of(&[row]), "{\"id\":1,\"id\":2}\n");
}

#[test]
fn empty_row_is_a_bare_terminator() {
    let row = Row { columns: Vec::new() };
    assert_eq!(csv_of(&[row.clone()], true), "\n\n");
    assert_eq!(json_of(&[row]), "{}\n");
}

#[test]
fn null_is_an_empty_cell_in_its_place() {
    let row = Row {
        columns: vec![
            column("a", "INT", Value::Int(1)),
            column("b", "BOOLEAN", Value::Null),
            column("c", "WHATEVER", Value::Null),
            column("d", "TEXT", text("")),
        ],
    };
    assert_eq!(csv_of(&[row.clone()], false), "1,,,\n");
    assert_eq!(json_of(&[row]), "{\"a\":1,\"b\":null,\"c\":null,\"d\":\"\"}\n");
}

#[test]
fn every_mapped_type_is_rendered() {
    let row = Row {
        columns: vec![
            column("b", "BOOLEAN", Value::Bool(true)),
            column("f", "BOOLEAN", Value::Bool(false)),
            column("i", "SMALLINT", Value::Int(-7)),
            column("big", "BIGINT", Value::Int(i64::MIN)),
            column("x", "FLOAT", Value::Float(1.5f32.to_string())),
            column("y", "DOUBLE", Value::Double((-0.25f64).to_string())),
            column("c", "CHAR", text("c")),
            column("v", "VARCHAR", text("v,w")),
            column("t", "TEXT", text("t")),
            column("l", "LONGTEXT", text("l")),
        ],
    };
    assert_eq!(
        csv_of(&[row.clone()], true),
        "b,f,i,big,x,y,c,v,t,l\ntrue,false,-7,-9223372036854775808,1.5,-0.25,c,\"v,w\",t,l\n"
    );
    assert_eq!(
        json_of(&[row]),
        "{\"b\":true,\"f\":false,\"i\":-7,\"big\":-9223372036854775808,\"x\":1.5,\"y\":-0.25,\
         \"c\":\"c\",\"v\":\"v,w\",\"t\":\"t\",\"l\":\"l\"}\n"
    );
}

#[test]
fn numbers_that_are_not_finite_are_written_as_they_are() {
    let row = Row {
        columns: vec![
            column("x", "FLOAT", Value::Float(f32::NAN.to_string())),
            column("y", "DOUBLE", Value::Double(f64::NEG_INFINITY.to_string())),
        ],
    };
    assert_eq!(csv_of(&[row.clone()], false), "NaN,-inf\n");
    assert_eq!(json_of(&[row]), "{\"x\":NaN,\"y\":-inf}\n");
}

#[test]
fn timestamps_are_rendered_in_json() {
    let row = Row {
        columns: vec![
            column("epoch", "DATETIME", Value::DateTime { secs: 0, nanos: 0 }),
            column("later", "DATETIME", Value::DateTime { secs: 1431648000, nanos: 500_000_000 }),
            column("before", "DATETIME", Value::DateTime { secs: -1, nanos: 0 }),
        ],
    };
    assert_eq!(
        json_of(&[row]),
        "{\"epoch\":\"1970-01-01 00:00:00\",\"later\":\"2015-05-15 00:00:00.500\",\
         \"before\":\"1969-12-31 23:59:59\"}\n"
    );
}

#[test]
fn timestamp_out_of_range_is_an_error() {
    let row = Row {
        columns: vec![
            column("id", "INT", Value::Int(1)),
            column("at", "DATETIME", Value::DateTime { secs: i64::MAX, nanos: 0 }),
        ],
    };
    let mut writer = JsonWriter::new(Vec::new());
    assert_eq!(writer.write(&row), Err(RowAccessError { column: 1 }));
    assert_eq!(writer.into_inner(), b"{\"id\":1,\"at\":".to_vec());
    let bad_nanos = Row {
        columns: vec![column("at", "DATETIME", Value::DateTime { secs: 0, nanos: 2_000_000_000 })],
    };
    let mut writer = JsonWriter::new(Vec::new());
    assert_eq!(writer.write(&bad_nanos), Err(RowAccessError { column: 0 }));
}

#[test]
fn unmapped_tag_is_text_in_csv_and_null_in_json() {
    let row = Row {
        columns: vec![
            column("when", "DATETIME", text("2020-01-02 03:04:05")),
            column("blob", "JSONB", text("{\"a\":1}")),
        ],
    };
    assert_eq!(csv_of(&[row.clone()], false), "2020-01-02 03:04:05,\"{\"\"a\"\":1}\"\n");
    let unmapped = Row { columns: vec![column("blob", "JSONB", text("{\"a\":1}"))] };
    assert_eq!(json_of(&[unmapped]), "{\"blob\":null}\n");
    let mut writer = JsonWriter::new(Vec::new());
    assert_eq!(writer.write(&row), Err(RowAccessError { column: 0 }));
}

#[test]
fn unmapped_tag_is_null_whatever_the_value() {
    let row = Row {
        columns: vec![
            column("a", "BOOL", Value::Bool(true)),
            column("b", "REAL", Value::Float("1".to_string())),
            column("c", "TIMESTAMP", Value::DateTime { secs: i64::MAX, nanos: 0 }),
            column("d", "boolean", Value::Bool(true)),
        ],
    };
    assert_eq!(json_of(&[row]), "{\"a\":null,\"b\":null,\"c\":null,\"d\":null}\n");
}

#[test]
fn csv_mismatch_stops_in_the_middle_of_the_row() {
    let row = Row {
        columns: vec![
            column("a", "INT", Value::Int(1)),
            column("b", "TEXT", text("x")),
            column("c", "BOOLEAN", Value::Int(1)),
            column("d", "INT", Value::Int(4)),
        ],
    };
    let mut writer = CsvWriter::new(Vec::new(), true);
    assert_eq!(writer.write(&row), Err(RowAccessError { column: 2 }));
    assert_eq!(writer.columns_written(), 2);
    assert_eq!(writer.into_inner(), b"a,b,c,d\n1,x".to_vec());
}

#[test]
fn csv_rejects_each_mismatch() {
    let cases = vec![
        column("c", "BOOLEAN", text("true")),
        column("c", "INT", Value::Bool(true)),
        column("c", "POINT", text("(1,2)")),
        column("c", "FLOAT", Value::Double("1".to_string())),
        column("c", "DOUBLE", Value::Float("1".to_string())),
        column("c", "TEXT", Value::Int(1)),
        column("c", "DATETIME", Value::DateTime { secs: 0, nanos: 0 }),
        column("c", "OTHER", Value::Bool(false)),
    ];
    for case in cases {
        let row = Row { columns: vec![case] };
        let mut writer = CsvWriter::new(Vec::new(), false);
        assert_eq!(writer.write(&row), Err(RowAccessError { column: 0 }));
        assert_eq!(writer.into_inner(), Vec::<u8>::new());
    }
}

#[test]
fn json_rejects_each_mismatch() {
    let cases = vec![
        column("c", "BOOLEAN", text("true")),
        column("c", "INT", Value::Bool(true)),
        column("c", "FLOAT", Value::Double("1".to_string())),
        column("c", "DOUBLE", Value::Int(1)),
        column("c", "TEXT", Value::Int(1)),
        column("c", "VARCHAR", Value::DateTime { secs: 0, nanos: 0 }),
        column("c", "DATETIME", text("2020-01-01 00:00:00")),
    ];
    for case in cases {
        let row = Row { columns: vec![case] };
        let mut writer = JsonWriter::new(Vec::new());
        assert_eq!(writer.write(&row), Err(RowAccessError { column: 0 }));
        assert_eq!(writer.into_inner(), b"{\"c\":".to_vec());
    }
}

#[test]
fn column_knows_whether_it_is_null() {
    assert!(column("a", "INT", Value::Null).is_null());
    assert!(!column("a", "INT", Value::Int(0)).is_null());
    assert!(!column("a", "TEXT", text("")).is_null());
}
