use dbpipe::csv::CsvWriter;
use dbpipe::json::JsonWriter;
use dbpipe::row::{Column, Row, Value};

fn column(name: &str, type_tag: &str, value: Value) -> Column {
    Column { name: name.to_string(), type_tag: type_tag.to_string(), value }
}

fn awkward_texts() -> Vec<String> {
    let mut texts = vec![
        String::new(),
        "plain".to_string(),
        "\"".to_string(),
        "\"\"".to_string(),
        ",".to_string(),
        "\n".to_string(),
        "a,\"b\"\nc".to_string(),
        "He said \"hi\",\nbye".to_string(),
        "back\\slash".to_string(),
        "tab\tcr\rbell\u{7}".to_string(),
        "na\u{ef}ve \u{4e2d}\u{6587} \u{1f600}".to_string(),
    ];
    let controls: String = (0u32..=0x9f).filter_map(char::from_u32).collect();
    texts.push(controls);
    texts
}

fn records_of(bytes: &[u8]) -> Vec<Vec<Vec<u8>>> {
    // Records end at a line feed only: a carriage return is data.
    let mut reader = csv::ReaderBuilder::new()
        .has_headers(false)
        .flexible(true)
        .terminator(csv::Terminator::Any(b'\n'))
        .from_reader(bytes);
    let mut records = Vec::new();
    let mut record = csv::ByteRecord::new();
    while reader.read_byte_record(&mut record).unwrap() {
        records.push(record.iter().map(|field| field.to_vec()).collect());
    }
    records
}

#[test]
fn csv_reader_recovers_every_cell() {
    for text in awkward_texts() {
        let row = Row {
            columns: vec![
                column("first", "TEXT", Value::Text(text.clone())),
                column("second", "VARCHAR", Value::Text(text.clone())),
            ],
        };
        let mut writer = CsvWriter::new(Vec::new(), false);
        assert_eq!(writer.write(&row), Ok(()));
        let written = writer.into_inner();
        let records = records_of(&written);
        assert_eq!(records, vec![vec![text.clone().into_bytes(), text.into_bytes()]]);
    }
}

#[test]
fn csv_reader_counts_one_cell_per_column() {
    let rows: Vec<Row> = (0..4)
        .map(|i| Row {
            columns: vec![
                column("a,b", "INT", Value::Int(i)),
                column("n", "TEXT", Value::Null),
                column("q\"", "TEXT", Value::Text(format!("{},\"{}\"\n", i, i))),
            ],
        })
        .collect();
    let mut writer = CsvWriter::new(Vec::new(), true);
    for row in &rows {
        assert_eq!(writer.write(row), Ok(()));
    }
    let records = records_of(&writer.into_inner());
    assert_eq!(records.len(), 5);
    assert_eq!(records[0], vec![b"a,b".to_vec(), b"n".to_vec(), b"q\"".to_vec()]);
    for (i, record) in records[1..].iter().enumerate() {
        assert_eq!(record.len(), 3);
        assert_eq!(record[0], i.to_string().into_bytes());
        assert_eq!(record[1], Vec::<u8>::new());
        assert_eq!(record[2], format!("{},\"{}\"\n", i, i).into_bytes());
    }
}

#[test]
fn json_parser_recovers_every_string() {
    for text in awkward_texts() {
        let mut writer = JsonWriter::new(Vec::new());
        writer.write_string(&text);
        let written = writer.into_inner();
        let parsed: serde_json::Value = serde_json::from_slice(&written).unwrap();
        assert_eq!(parsed, serde_json::Value::String(text));
    }
}

#[test]
fn json_parser_reads_every_line_as_an_object() {
    let rows: Vec<Row> = awkward_texts()
        .into_iter()
        .enumerate()
        .map(|(i, text)| Row {
            columns: vec![
                column("id", "BIGINT", Value::Int(i as i64 - 3)),
                column(&text, "TEXT", Value::Text(text.clone())),
                column("ok", "BOOLEAN", Value::Bool(i % 2 == 0)),
                column("x", "DOUBLE", Value::Double((i as f64 / 4.0).to_string())),
                column("at", "DATETIME", Value::DateTime { secs: i as i64 * 86400, nanos: 0 }),
                column("gone", "TEXT", Value::Null),
                column("raw", "BLOB", Value::Text(text)),
            ],
        })
        .collect();
    let mut writer = JsonWriter::new(Vec::new());
    for row in &rows {
        assert_eq!(writer.write(row), Ok(()));
    }
    let written = String::from_utf8(writer.into_inner()).unwrap();
    assert!(written.ends_with('\n'));
    let lines: Vec<&str> = written[..written.len() - 1].split('\n').collect();
    assert_eq!(lines.len(), rows.len());
    for (i, (line, row)) in lines.iter().zip(&rows).enumerate() {
        let parsed: serde_json::Value = serde_json::from_str(line).unwrap();
        let object = parsed.as_object().unwrap();
        for column in &row.columns {
            assert!(object.contains_key(&column.name));
        }
        assert_eq!(object["id"], serde_json::Value::from(i as i64 - 3));
        assert_eq!(object["ok"], serde_json::Value::Bool(i % 2 == 0));
        assert_eq!(object["x"].as_f64(), Some(i as f64 / 4.0));
        assert!(object["gone"].is_null());
        assert!(object["raw"].is_null());
        assert!(object["at"].is_string());
        if !["id", "ok", "x", "at", "gone", "raw"].contains(&row.columns[1].name.as_str()) {
            assert_eq!(object[&row.columns[1].name], serde_json::Value::String(row.columns[1].name.clone()));
        }
    }
}
