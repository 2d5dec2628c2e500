//! Scenario tests for the dump writer's formatting rules.

use sqldump::dump::{
    filter_tables, insert_mode_of, render_data_section, render_data_statement, render_dump_footer,
    render_dump_header, render_row, render_structure_section, replace_bytes, InsertMode,
};
use sqldump::value::SqlValue;

#[test]
fn dump_header_names_the_database_and_the_date() {
    let head = render_dump_header("shop", "Mon, 1 Jan 2024 00:00:00 +0000");
    let text = String::from_utf8(head).unwrap();
    assert!(text.starts_with(
        "-- Pure Native SQL Manager Dump\n-- Database: shop\n-- Date: Mon, 1 Jan 2024 00:00:00 +0000\n\n"
    ));
    assert!(text.contains("SET SQL_MODE = \"NO_AUTO_VALUE_ON_ZERO\";\n"));
    assert!(text.contains("START TRANSACTION;\n"));
    assert!(text.ends_with("/*!40101 SET NAMES utf8mb4 */;\n\n"));
}

#[test]
fn dump_footer_commits_and_restores_the_session() {
    let foot = String::from_utf8(render_dump_footer()).unwrap();
    assert!(foot.starts_with("COMMIT;\n"));
    assert!(foot.ends_with("/*!40101 SET COLLATION_CONNECTION=@OLD_COLLATION_CONNECTION */;\n"));
}

#[test]
fn insertion_mode_text_maps_to_the_three_modes() {
    assert!(matches!(insert_mode_of("INSERT IGNORE"), InsertMode::InsertIgnore));
    assert!(matches!(insert_mode_of("REPLACE"), InsertMode::Replace));
    assert!(matches!(insert_mode_of("INSERT"), InsertMode::Insert));
    assert!(matches!(insert_mode_of("anything else"), InsertMode::Insert));
}

#[test]
fn table_filter_keeps_database_order_and_full_list_without_selection() {
    let all = vec!["a".to_string(), "b".to_string(), "c".to_string()];
    let sel = Some(vec!["c".to_string(), "a".to_string()]);
    assert_eq!(filter_tables(&all, &sel), vec!["a".to_string(), "c".to_string()]);
    assert_eq!(filter_tables(&all, &None), all);
    let none_match = Some(vec!["x".to_string()]);
    assert_eq!(filter_tables(&all, &none_match), Vec::<String>::new());
}

fn count_occurrences(hay: &[u8], needle: &[u8]) -> usize {
    let mut n: usize = 0;
    let mut i: usize = 0;
    while i + needle.len() <= hay.len() {
        if &hay[i..i + needle.len()] == needle {
            n += 1;
            i += needle.len();
        } else {
            i += 1;
        }
    }
    n
}

#[test]
fn row_tuple_is_parenthesized_and_comma_separated() {
    let row = vec![SqlValue::Int(1), SqlValue::Null, SqlValue::Bytes(b"x".to_vec())];
    assert_eq!(render_row(&row), b"(1, NULL, 'x')".to_vec());
    assert_eq!(render_row(&Vec::new()), b"()".to_vec());
}

#[test]
fn three_rows_have_two_separators_and_one_terminator() {
    let rows = vec![
        vec![SqlValue::Int(1)],
        vec![SqlValue::Int(2)],
        vec![SqlValue::Int(3)],
    ];
    let out = render_data_statement(InsertMode::Insert, "t", &rows);
    assert_eq!(
        out,
        b"INSERT INTO `t` VALUES \n(1),\n(2),\n(3);\n\n".to_vec()
    );
    assert_eq!(count_occurrences(&out, b",\n"), 2);
    assert_eq!(count_occurrences(&out, b";\n\n"), 1);
    assert_eq!(count_occurrences(&out, b",;"), 0);
    assert!(out.ends_with(b";\n\n"));
}

#[test]
fn single_row_has_no_separator() {
    let rows = vec![vec![SqlValue::Int(7), SqlValue::Int(8)]];
    let out = render_data_statement(InsertMode::Insert, "t", &rows);
    assert_eq!(out, b"INSERT INTO `t` VALUES \n(7, 8);\n\n".to_vec());
    assert_eq!(count_occurrences(&out, b",\n"), 0);
}

#[test]
fn empty_row_set_emits_no_statement() {
    let rows: Vec<Vec<SqlValue>> = Vec::new();
    let out = render_data_statement(InsertMode::Insert, "t", &rows);
    assert_eq!(out, Vec::<u8>::new());
}

#[test]
fn insertion_mode_selects_the_keyword() {
    let rows = vec![vec![SqlValue::Int(1)]];
    let a = render_data_statement(InsertMode::InsertIgnore, "t", &rows);
    assert!(a.starts_with(b"INSERT IGNORE INTO `t` VALUES \n"));
    let b = render_data_statement(InsertMode::Replace, "t", &rows);
    assert!(b.starts_with(b"REPLACE INTO `t` VALUES \n"));
}

#[test]
fn data_section_carries_the_banner() {
    let rows = vec![vec![SqlValue::Int(1)]];
    let out = render_data_section(InsertMode::Insert, "users", &rows);
    assert_eq!(
        out,
        b"--\n-- Dumping data for table `users`\n--\n\nINSERT INTO `users` VALUES \n(1);\n\n"
            .to_vec()
    );
}

#[test]
fn structure_section_with_drop_and_if_not_exists() {
    let out = render_structure_section(
        "t",
        "CREATE TABLE `t` (x INT)",
        true,
        true,
    );
    assert_eq!(
        out,
        b"--\n-- Structure for table `t`\n--\n\nDROP TABLE IF EXISTS `t`;\nCREATE TABLE IF NOT EXISTS `t` (x INT);\n\n"
            .to_vec()
    );
}

#[test]
fn structure_section_plain() {
    let out = render_structure_section("t", "CREATE TABLE `t` (x INT)", false, false);
    assert_eq!(
        out,
        b"--\n-- Structure for table `t`\n--\n\nCREATE TABLE `t` (x INT);\n\n".to_vec()
    );
}

#[test]
fn replace_bytes_rewrites_every_occurrence() {
    assert_eq!(replace_bytes(b"aXbXc", b"X", b"YY"), b"aYYbYYc".to_vec());
    assert_eq!(replace_bytes(b"abc", b"X", b"Y"), b"abc".to_vec());
    assert_eq!(replace_bytes(b"XX", b"X", b""), Vec::<u8>::new());
    assert_eq!(replace_bytes(b"abc", b"", b"Y"), b"abc".to_vec());
    assert_eq!(replace_bytes(b"aaa", b"aa", b"b"), b"ba".to_vec());
}

#[test]
fn rows_with_every_value_kind_render_like_the_dump() {
    let rows = vec![vec![
        SqlValue::Null,
        SqlValue::Int(-5),
        SqlValue::UInt(6),
        SqlValue::Float(b"1.5".to_vec()),
        SqlValue::Bytes(b"a'b".to_vec()),
        SqlValue::DateTime {
            year: 2024,
            month: 1,
            day: 5,
            hour: 9,
            minute: 3,
            second: 7,
            micros: 12,
        },
        SqlValue::Time {
            negative: false,
            days: 0,
            hours: 1,
            minutes: 2,
            seconds: 3,
            micros: 4,
        },
    ]];
    let out = render_data_statement(InsertMode::Insert, "t", &rows);
    assert_eq!(
        out,
        b"INSERT INTO `t` VALUES \n(NULL, -5, 6, 1.5, 'a\\'b', '2024-01-05 09:03:07.000012', '1:02:03.000004');\n\n"
            .to_vec()
    );
}
