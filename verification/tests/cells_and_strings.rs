use dbpipe::csv::{get_str, CsvWriter};
use dbpipe::json::JsonWriter;
use dbpipe::row::{Column, Row, RowAccessError, Value};
use dbpipe::text::{append, push_bool, push_decimal, push_utf8};

fn cell(data: &[u8]) -> Vec<u8> {
    let mut writer = CsvWriter::new(Vec::new(), false);
    writer.write_cell(data);
    writer.into_inner()
}

fn string(text: &str) -> String {
    let mut writer = JsonWriter::new(Vec::new());
    writer.write_string(text);
    String::from_utf8(writer.into_inner()).unwrap()
}

#[test]
fn plain_cell_is_the_raw_text() {
    assert_eq!(cell(b"hello world"), b"hello world".to_vec());
    assert_eq!(cell(b""), b"".to_vec());
    assert_eq!(cell(b"it's; tab\there\r"), b"it's; tab\there\r".to_vec());
    assert_eq!(cell("na\u{ef}ve \u{1f600}".as_bytes()), "na\u{ef}ve \u{1f600}".as_bytes().to_vec());
    assert_eq!(cell(&[0x00, 0xff, 0x80]), vec![0x00, 0xff, 0x80]);
}

#[test]
fn cell_with_quote_is_wrapped_and_doubled() {
    assert_eq!(cell(b"\""), b"\"\"\"\"".to_vec());
    assert_eq!(cell(b"a\"b"), b"\"a\"\"b\"".to_vec());
    assert_eq!(cell(b"\"\""), b"\"\"\"\"\"\"".to_vec());
}

#[test]
fn cell_with_comma_or_line_feed_is_wrapped() {
    assert_eq!(cell(b"a,b"), b"\"a,b\"".to_vec());
    assert_eq!(cell(b"a\nb"), b"\"a\nb\"".to_vec());
    assert_eq!(cell(b","), b"\",\"".to_vec());
    assert_eq!(cell(b"\n"), b"\"\n\"".to_vec());
}

#[test]
fn cells_are_separated_and_counted() {
    let mut writer = CsvWriter::new(Vec::new(), true);
    assert_eq!(writer.columns_written(), 0);
    writer.write_cell(b"a");
    assert_eq!(writer.columns_written(), 1);
    writer.write_cell(b"");
    writer.write_cell(b"c,d");
    assert_eq!(writer.columns_written(), 3);
    writer.finish_row();
    assert_eq!(writer.columns_written(), 0);
    writer.write_cell(b"e");
    writer.finish_row();
    writer.finish_row();
    assert_eq!(writer.into_inner(), b"a,,\"c,d\"\ne\n\n".to_vec());
}

#[test]
fn cells_written_by_hand_do_not_count_as_header() {
    let mut writer = CsvWriter::new(Vec::new(), true);
    writer.write_cell(b"title");
    writer.finish_row();
    let row = Row {
        columns: vec![Column {
            name: "n".to_string(),
            type_tag: "INT".to_string(),
            value: Value::Int(5),
        }],
    };
    assert_eq!(writer.write(&row), Ok(()));
    assert_eq!(writer.into_inner(), b"title\nn\n5\n".to_vec());
}

#[test]
fn get_str_reads_by_type_tag() {
    let row = Row {
        columns: vec![
            Column { name: "a".into(), type_tag: "BOOLEAN".into(), value: Value::Bool(true) },
            Column { name: "b".into(), type_tag: "TINYINT".into(), value: Value::Int(-128) },
            Column { name: "c".into(), type_tag: "FLOAT".into(), value: Value::Float("0.5".into()) },
            Column { name: "d".into(), type_tag: "DOUBLE".into(), value: Value::Double("inf".into()) },
            Column { name: "e".into(), type_tag: "ENUM".into(), value: Value::Text("x\"y".into()) },
            Column { name: "f".into(), type_tag: "INT".into(), value: Value::Null },
            Column { name: "g".into(), type_tag: "INT".into(), value: Value::Text("1".into()) },
        ],
    };
    assert_eq!(get_str(&row, 0), Ok(Some(b"true".to_vec())));
    assert_eq!(get_str(&row, 1), Ok(Some(b"-128".to_vec())));
    assert_eq!(get_str(&row, 2), Ok(Some(b"0.5".to_vec())));
    assert_eq!(get_str(&row, 3), Ok(Some(b"inf".to_vec())));
    assert_eq!(get_str(&row, 4), Ok(Some(b"x\"y".to_vec())));
    assert_eq!(get_str(&row, 5), Ok(None));
    assert_eq!(get_str(&row, 6), Err(RowAccessError { column: 6 }));
}

#[test]
fn string_without_special_characters_is_quoted_only() {
    assert_eq!(string(""), "\"\"");
    assert_eq!(string("plain text"), "\"plain text\"");
    assert_eq!(string("a/b 'c'"), "\"a/b 'c'\"");
    assert_eq!(string("na\u{ef}ve \u{4e2d}\u{6587} \u{1f600}"), "\"na\u{ef}ve \u{4e2d}\u{6587} \u{1f600}\"");
}

#[test]
fn string_escapes_quote_and_backslash() {
    assert_eq!(string("\""), "\"\\\"\"");
    assert_eq!(string("\\"), "\"\\\\\"");
    assert_eq!(string("a\"b\\c"), "\"a\\\"b\\\\c\"");
}

#[test]
fn string_uses_named_escapes() {
    assert_eq!(string("\u{8}\u{c}\n\r\t"), "\"\\b\\f\\n\\r\\t\"");
}

#[test]
fn string_uses_numeric_escapes_for_other_controls() {
    assert_eq!(string("\u{0}"), "\"\\u0000\"");
    assert_eq!(string("\u{1}"), "\"\\u0001\"");
    assert_eq!(string("\u{b}"), "\"\\u000b\"");
    assert_eq!(string("\u{1f}"), "\"\\u001f\"");
    assert_eq!(string("\u{7f}"), "\"\\u007f\"");
    assert_eq!(string("\u{80}"), "\"\\u0080\"");
    assert_eq!(string("\u{9f}"), "\"\\u009f\"");
    assert_eq!(string("\u{a0}"), "\"\u{a0}\"");
    assert_eq!(string(" ~"), "\" ~\"");
}

/// Every character up to U+2FFF, a sample of the rest, and the characters
/// where the length of the UTF-8 encoding changes.
fn sample_characters() -> Vec<char> {
    let edges = [0xd7ffu32, 0xe000, 0xfffd, 0xffff, 0x10000, 0x1f600, 0x10fffe, 0x10ffff];
    (0u32..0x3000)
        .chain((0x3000u32..=0x10ffff).step_by(97))
        .chain(edges)
        .filter_map(char::from_u32)
        .collect()
}

#[test]
fn string_escapes_exactly_the_control_characters() {
    for c in sample_characters() {
        let code = c as u32;
        let mut expected = String::from("\"");
        match c {
            '"' => expected.push_str("\\\""),
            '\\' => expected.push_str("\\\\"),
            '\u{8}' => expected.push_str("\\b"),
            '\u{c}' => expected.push_str("\\f"),
            '\n' => expected.push_str("\\n"),
            '\r' => expected.push_str("\\r"),
            '\t' => expected.push_str("\\t"),
            c if c.is_control() => expected.push_str(&format!("\\u{:04x}", code)),
            c => expected.push(c),
        }
        expected.push('"');
        let mut buffer = [0u8; 4];
        assert_eq!(string(c.encode_utf8(&mut buffer)), expected);
    }
}

#[test]
fn utf8_matches_the_standard_encoding() {
    for c in sample_characters() {
        let mut out = vec![0x21];
        push_utf8(&mut out, c);
        let mut buffer = [0u8; 4];
        assert_eq!(&out[1..], c.encode_utf8(&mut buffer).as_bytes());
    }
}

#[test]
fn decimal_matches_the_standard_rendering() {
    let samples = [
        0i64,
        1,
        -1,
        9,
        10,
        -10,
        42,
        99,
        100,
        101,
        -12345,
        1_000_000_007,
        i64::MAX,
        i64::MIN,
        i64::MIN + 1,
    ];
    for n in samples {
        let mut out = b"=".to_vec();
        push_decimal(&mut out, n);
        assert_eq!(String::from_utf8(out).unwrap(), format!("={}", n));
    }
    let mut out = Vec::new();
    push_decimal(&mut out, -9223372036854775808);
    assert_eq!(out, b"-9223372036854775808".to_vec());
    let mut zero = Vec::new();
    push_decimal(&mut zero, 0);
    assert_eq!(zero, b"0".to_vec());
}

#[test]
fn booleans_are_spelled_out() {
    let mut out = Vec::new();
    push_bool(&mut out, true);
    push_bool(&mut out, false);
    assert_eq!(out, b"truefalse".to_vec());
}

#[test]
fn append_adds_at_the_end() {
    let mut out = b"ab".to_vec();
    append(&mut out, b"cd");
    append(&mut out, b"");
    assert_eq!(out, b"abcd".to_vec());
}
