use dbpipe::access::{contains_int, csv_accessor, json_accessor, same_text, Accessor};
use dbpipe::query::{is_match_destructive, is_query_destructive};

#[test]
fn json_table_maps_every_known_tag() {
    assert_eq!(json_accessor("BOOLEAN"), Accessor::Bool);
    assert_eq!(json_accessor("INT"), Accessor::Int);
    assert_eq!(json_accessor("INTEGER"), Accessor::Int);
    assert_eq!(json_accessor("BIGINT"), Accessor::Int);
    assert_eq!(json_accessor("SMALLINT"), Accessor::Int);
    assert_eq!(json_accessor("TINYINT UNSIGNED"), Accessor::Int);
    assert_eq!(json_accessor("FLOAT"), Accessor::Float);
    assert_eq!(json_accessor("DOUBLE"), Accessor::Double);
    assert_eq!(json_accessor("CHAR"), Accessor::Text);
    assert_eq!(json_accessor("VARCHAR"), Accessor::Text);
    assert_eq!(json_accessor("TEXT"), Accessor::Text);
    assert_eq!(json_accessor("LONGTEXT"), Accessor::Text);
    assert_eq!(json_accessor("DATETIME"), Accessor::DateTime);
}

#[test]
fn json_table_leaves_other_tags_unmapped() {
    for tag in ["", "BOOL", "boolean", "Boolean", "REAL", "MEDIUMTEXT", "TIMESTAMP", "DATE", "BLOB", "int", "IN T", "NIT", "I", "IN"] {
        assert_eq!(json_accessor(tag), Accessor::Unmapped);
    }
}

#[test]
fn csv_table_reads_other_tags_as_text() {
    assert_eq!(csv_accessor("BOOLEAN"), Accessor::Bool);
    assert_eq!(csv_accessor("MEDIUMINT"), Accessor::Int);
    assert_eq!(csv_accessor("FLOAT"), Accessor::Float);
    assert_eq!(csv_accessor("DOUBLE"), Accessor::Double);
    for tag in ["CHAR", "VARCHAR", "TEXT", "LONGTEXT", "DATETIME", "", "BOOL", "REAL", "float"] {
        assert_eq!(csv_accessor(tag), Accessor::Text);
    }
}

#[test]
fn int_is_found_anywhere_in_a_tag() {
    assert!(contains_int("INT"));
    assert!(contains_int("INT8"));
    assert!(contains_int("BIGINT"));
    assert!(contains_int("POINT"));
    assert!(contains_int("IINT"));
    assert!(contains_int("ININT"));
    assert!(contains_int("\u{e9}INT\u{e9}"));
    assert!(!contains_int(""));
    assert!(!contains_int("IN"));
    assert!(!contains_int("INNT"));
    assert!(!contains_int("I NT"));
    assert!(!contains_int("int"));
    assert!(!contains_int("TNI"));
}

#[test]
fn texts_are_compared_by_their_characters() {
    assert!(same_text("", ""));
    assert!(same_text("TEXT", "TEXT"));
    assert!(!same_text("TEXT", "TEXt"));
    assert!(!same_text("TEXT", "TEX"));
    assert!(!same_text("TEX", "TEXT"));
    assert!(same_text("\u{e9}t\u{e9}", "\u{e9}t\u{e9}"));
}

#[test]
fn update_and_delete_are_destructive() {
    assert!(is_query_destructive("UPDATE users SET name = 'x'"));
    assert!(is_query_destructive("delete from users"));
    assert!(is_query_destructive("select 1; Update t set a = 1"));
    assert!(is_query_destructive("(DELETE)"));
}

#[test]
fn other_statements_are_not_destructive() {
    assert!(!is_query_destructive(""));
    assert!(!is_query_destructive("SELECT * FROM users"));
    assert!(!is_query_destructive("SELECT updated_at FROM updates"));
    assert!(!is_query_destructive("SELECT deleted FROM t"));
    assert!(!is_query_destructive("SELECT * FROM undelete"));
}

#[test]
fn search_that_could_not_be_made_counts_as_destructive() {
    assert!(is_match_destructive(None));
    assert!(is_match_destructive(Some(true)));
    assert!(!is_match_destructive(Some(false)));
}
