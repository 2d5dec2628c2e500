//! Scenario tests for the statement splitter.

use sqldump::splitter::{split_sql_statements, split_sql_text, trim_bytes};

fn split_strings(sql: &str) -> Vec<String> {
    split_sql_statements(sql.as_bytes())
        .into_iter()
        .map(|s| String::from_utf8(s).unwrap())
        .collect()
}

#[test]
fn splits_on_semicolons_and_flushes_trailing() {
    assert_eq!(split_strings("a; b; c;"), vec!["a", "b", "c"]);
    assert_eq!(split_strings("a;b"), vec!["a", "b"]);
}

#[test]
fn single_statement_without_semicolon_is_trimmed_whole() {
    assert_eq!(
        split_strings("  SELECT 1 FROM t WHERE x = 2 \n"),
        vec!["SELECT 1 FROM t WHERE x = 2"]
    );
}

#[test]
fn empty_and_whitespace_inputs_yield_nothing() {
    assert_eq!(split_strings(""), Vec::<String>::new());
    assert_eq!(split_strings("   \n\t  "), Vec::<String>::new());
    assert_eq!(split_strings(";;;  ; ;"), Vec::<String>::new());
}

#[test]
fn semicolon_inside_single_quotes_does_not_split() {
    assert_eq!(
        split_strings("SELECT ';';SELECT 2;"),
        vec!["SELECT ';'", "SELECT 2"]
    );
}

#[test]
fn semicolon_inside_double_quotes_and_backticks_does_not_split() {
    assert_eq!(
        split_strings("SELECT \";\" FROM t;"),
        vec!["SELECT \";\" FROM t"]
    );
    assert_eq!(
        split_strings("SELECT `a;b` FROM t;"),
        vec!["SELECT `a;b` FROM t"]
    );
}

#[test]
fn semicolon_inside_line_comment_does_not_split() {
    assert_eq!(split_strings("-- a;\nSELECT 1;"), vec!["SELECT 1"]);
    assert_eq!(split_strings("# a;\nSELECT 1;"), vec!["SELECT 1"]);
}

#[test]
fn block_comment_is_kept_and_does_not_split() {
    assert_eq!(
        split_strings("/* a;b */ SELECT 1;"),
        vec!["/* a;b */ SELECT 1"]
    );
}

#[test]
fn line_comment_text_is_dropped_but_newline_kept() {
    assert_eq!(
        split_strings("SELECT 1 -- trailing;\n+ 2;"),
        vec!["SELECT 1 \n+ 2"]
    );
}

#[test]
fn doubled_quote_does_not_terminate_literal() {
    assert_eq!(split_strings("SELECT 'it''s';"), vec!["SELECT 'it''s'"]);
}

#[test]
fn backslash_escape_does_not_terminate_literal() {
    assert_eq!(
        split_strings("SELECT 'a\\';b';SELECT 2;"),
        vec!["SELECT 'a\\';b'", "SELECT 2"]
    );
}

#[test]
fn unterminated_quote_flushes_rest_as_one_statement() {
    assert_eq!(split_strings("SELECT 'abc; def"), vec!["SELECT 'abc; def"]);
}

#[test]
fn unterminated_block_comment_flushes_rest() {
    assert_eq!(split_strings("SELECT 1 /* open; still"), vec!["SELECT 1 /* open; still"]);
}

#[test]
fn backslash_at_end_of_input_is_kept() {
    assert_eq!(split_strings("SELECT 'x\\"), vec!["SELECT 'x\\"]);
}

#[test]
fn lone_dash_and_slash_are_ordinary_text() {
    assert_eq!(split_strings("SELECT 1 - 2 / 3;"), vec!["SELECT 1 - 2 / 3"]);
}

#[test]
fn star_slash_outside_comment_is_ordinary_text() {
    assert_eq!(split_strings("SELECT a */ b;"), vec!["SELECT a */ b"]);
}

#[test]
fn statements_keep_their_order() {
    assert_eq!(
        split_strings("CREATE TABLE t (x INT);\nINSERT INTO t VALUES (1);\nDROP TABLE t;"),
        vec![
            "CREATE TABLE t (x INT)",
            "INSERT INTO t VALUES (1)",
            "DROP TABLE t"
        ]
    );
}

#[test]
fn multibyte_text_passes_through() {
    assert_eq!(split_strings("SELECT 'caf\u{e9}'; SELECT '\u{4e16}\u{754c}';"), vec![
        "SELECT 'caf\u{e9}'",
        "SELECT '\u{4e16}\u{754c}'"
    ]);
}

#[test]
fn str_entry_point_matches_byte_entry_point() {
    let a = split_sql_text("a; b;");
    let b = split_sql_statements("a; b;".as_bytes());
    assert_eq!(a, b);
}

#[test]
fn trim_bytes_strips_both_ends_only() {
    assert_eq!(trim_bytes(b"  a b \t\n"), b"a b".to_vec());
    assert_eq!(trim_bytes(b""), Vec::<u8>::new());
    assert_eq!(trim_bytes(b" \r\n\t"), Vec::<u8>::new());
    assert_eq!(trim_bytes(b"x"), b"x".to_vec());
}
