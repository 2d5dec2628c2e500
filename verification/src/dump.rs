//! The dump writer's formatting rules: multi-row INSERT statements with
//! their separators and terminator, and the per-table structure and data
//! sections of a dump file.

use vstd::prelude::*;
use vstd::string::StringSliceAdditionalSpecFns;
use crate::codec::{encode_value, spec_encode};
use crate::value::SqlValue;

verus! {

/// How data rows are written back on import: plain insert, insert that
/// skips key collisions, or replace.
#[derive(Clone, Copy)]
pub enum InsertMode {
    /// `INSERT INTO`.
    Insert,
    /// `INSERT IGNORE INTO`.
    InsertIgnore,
    /// `REPLACE INTO`.
    Replace,
}

/// The statement keyword each insertion mode selects.
pub open spec fn spec_insert_keyword(m: InsertMode) -> Seq<u8> {
    match m {
        InsertMode::Insert => ("INSERT INTO").spec_bytes(),
        InsertMode::InsertIgnore => ("INSERT IGNORE INTO").spec_bytes(),
        InsertMode::Replace => ("REPLACE INTO").spec_bytes(),
    }
}

/// The encoded values of one row, joined by comma-space.
pub open spec fn spec_join_values(vs: Seq<SqlValue>) -> Seq<u8>
    decreases vs.len(),
{
    if vs.len() == 0 {
        Seq::empty()
    } else if vs.len() == 1 {
        spec_encode(vs[0])
    } else {
        spec_encode(vs[0]) + seq![44u8, 32u8] + spec_join_values(vs.drop_first())
    }
}

/// One row tuple as it stands in a VALUES clause: the encoded values,
/// comma-separated, in parentheses.
pub open spec fn spec_render_row(vs: Seq<SqlValue>) -> Seq<u8> {
    seq![40u8] + spec_join_values(vs) + seq![41u8]
}

/// The row tuples of one table, joined by comma-newline. The separator
/// stands only between rows: `n` rows carry exactly `n - 1` separators,
/// so no dangling comma can precede the terminator.
pub open spec fn spec_join_rows(rows: Seq<Vec<SqlValue>>) -> Seq<u8>
    decreases rows.len(),
{
    if rows.len() == 0 {
        Seq::empty()
    } else if rows.len() == 1 {
        spec_render_row(rows[0]@)
    } else {
        spec_render_row(rows[0]@) + seq![44u8, 10u8] + spec_join_rows(rows.drop_first())
    }
}

/// The one multi-row statement that restores a table's data: keyword,
/// backquoted table name, the joined rows, and the `;` terminator with
/// a blank line. Empty row sets produce no statement at all.
pub open spec fn spec_data_statement(m: InsertMode, tb: Seq<u8>, rows: Seq<Vec<SqlValue>>) -> Seq<u8> {
    if rows.len() == 0 {
        Seq::empty()
    } else {
        spec_insert_keyword(m) + (" `").spec_bytes() + tb + ("` VALUES \n").spec_bytes()
            + spec_join_rows(rows) + (";\n\n").spec_bytes()
    }
}

/// Joining one more value appends a separator (unless the row was
/// empty) and the value's encoding.
proof fn lemma_join_values_snoc(vs: Seq<SqlValue>, x: SqlValue)
    ensures
        spec_join_values(vs.push(x)) == if vs.len() == 0 {
            spec_encode(x)
        } else {
            spec_join_values(vs) + seq![44u8, 32u8] + spec_encode(x)
        },
    decreases vs.len(),
{
    let t = vs.push(x);
    if vs.len() == 0 {
        assert(t.len() == 1);
        assert(t[0] == x);
    } else if vs.len() == 1 {
        assert(t.drop_first() =~= seq![x]);
        assert(spec_join_values(t.drop_first()) == spec_encode(x));
        assert(t[0] == vs[0]);
        assert(spec_join_values(vs) == spec_encode(vs[0]));
    } else {
        assert(t.drop_first() =~= vs.drop_first().push(x));
        lemma_join_values_snoc(vs.drop_first(), x);
        assert(t[0] == vs[0]);
        assert(spec_encode(vs[0]) + seq![44u8, 32u8] + (spec_join_values(vs.drop_first())
            + seq![44u8, 32u8] + spec_encode(x)) =~= (spec_encode(vs[0]) + seq![44u8, 32u8]
            + spec_join_values(vs.drop_first())) + seq![44u8, 32u8] + spec_encode(x));
    }
}

/// Joining one more row appends a separator (unless the set was empty)
/// and the row's rendering.
proof fn lemma_join_rows_snoc(rows: Seq<Vec<SqlValue>>, x: Vec<SqlValue>)
    ensures
        spec_join_rows(rows.push(x)) == if rows.len() == 0 {
            spec_render_row(x@)
        } else {
            spec_join_rows(rows) + seq![44u8, 10u8] + spec_render_row(x@)
        },
    decreases rows.len(),
{
    let t = rows.push(x);
    if rows.len() == 0 {
        assert(t.len() == 1);
        assert(t[0] == x);
    } else if rows.len() == 1 {
        assert(t.drop_first() =~= seq![x]);
        assert(spec_join_rows(t.drop_first()) == spec_render_row(x@));
        assert(t[0] == rows[0]);
    } else {
        assert(t.drop_first() =~= rows.drop_first().push(x));
        lemma_join_rows_snoc(rows.drop_first(), x);
        assert(t[0] == rows[0]);
        assert(spec_render_row(rows[0]@) + seq![44u8, 10u8] + (spec_join_rows(rows.drop_first())
            + seq![44u8, 10u8] + spec_render_row(x@)) =~= (spec_render_row(rows[0]@) + seq![
            44u8,
            10u8,
        ] + spec_join_rows(rows.drop_first())) + seq![44u8, 10u8] + spec_render_row(x@));
    }
}

/// Appends the bytes of a text fragment to the buffer.
fn append_text(r: &mut Vec<u8>, s: &str)
    ensures
        final(r)@ == old(r)@ + s.spec_bytes(),
{
    r.extend_from_slice(s.as_bytes());
}

/// Renders one row tuple for a VALUES clause.
pub fn render_row(vals: &Vec<SqlValue>) -> (r: Vec<u8>)
    ensures
        r@ == spec_render_row(vals@),
{
    let mut r: Vec<u8> = Vec::new();
    r.push(40);
    let n = vals.len();
    let mut i: usize = 0;
    proof {
        assert(vals@.take(0) =~= Seq::<SqlValue>::empty());
        assert(r@ =~= seq![40u8] + spec_join_values(vals@.take(0)));
    }
    while i < n
        invariant
            i <= n == vals@.len(),
            r@ == seq![40u8] + spec_join_values(vals@.take(i as int)),
        decreases n - i,
    {
        if i > 0 {
            r.push(44);
            r.push(32);
        }
        let e = encode_value(&vals[i]);
        r.extend_from_slice(e.as_slice());
        proof {
            assert(vals@.take(i + 1) =~= vals@.take(i as int).push(vals@[i as int]));
            lemma_join_values_snoc(vals@.take(i as int), vals@[i as int]);
            assert(r@ =~= seq![40u8] + spec_join_values(vals@.take(i + 1)));
        }
        i = i + 1;
    }
    r.push(41);
    proof {
        assert(vals@.take(n as int) =~= vals@);
        assert(r@ =~= spec_render_row(vals@));
    }
    r
}

/// Renders the one multi-row statement that restores a table's data:
/// `n` rows produce exactly `n - 1` comma-newline separators and one
/// trailing `;` with a blank line; an empty row set produces nothing.
pub fn render_data_statement(mode: InsertMode, table: &str, rows: &Vec<Vec<SqlValue>>) -> (r: Vec<
    u8,
>)
    ensures
        r@ == spec_data_statement(mode, table.spec_bytes(), rows@),
{
    let mut r: Vec<u8> = Vec::new();
    if rows.len() == 0 {
        proof {
            assert(r@ =~= Seq::<u8>::empty());
        }
        return r;
    }
    match mode {
        InsertMode::Insert => append_text(&mut r, "INSERT INTO"),
        InsertMode::InsertIgnore => append_text(&mut r, "INSERT IGNORE INTO"),
        InsertMode::Replace => append_text(&mut r, "REPLACE INTO"),
    }
    append_text(&mut r, " `");
    append_text(&mut r, table);
    append_text(&mut r, "` VALUES \n");
    let ghost head = spec_insert_keyword(mode) + (" `").spec_bytes() + table.spec_bytes() + (
    "` VALUES \n").spec_bytes();
    proof {
        assert(r@ =~= head);
    }
    let n = rows.len();
    let mut i: usize = 0;
    proof {
        assert(rows@.take(0) =~= Seq::<Vec<SqlValue>>::empty());
        assert(r@ =~= head + spec_join_rows(rows@.take(0)));
    }
    while i < n
        invariant
            i <= n == rows@.len(),
            r@ == head + spec_join_rows(rows@.take(i as int)),
        decreases n - i,
    {
        if i > 0 {
            r.push(44);
            r.push(10);
        }
        let row = render_row(&rows[i]);
        r.extend_from_slice(row.as_slice());
        proof {
            assert(rows@.take(i + 1) =~= rows@.take(i as int).push(rows@[i as int]));
            lemma_join_rows_snoc(rows@.take(i as int), rows@[i as int]);
            assert(r@ =~= head + spec_join_rows(rows@.take(i + 1)));
        }
        i = i + 1;
    }
    append_text(&mut r, ";\n\n");
    proof {
        assert(rows@.take(n as int) =~= rows@);
        assert(r@ =~= spec_data_statement(mode, table.spec_bytes(), rows@));
    }
    r
}

/// The data section of one table in a dump: a comment banner naming the
/// table, then the multi-row statement when there are rows.
pub open spec fn spec_data_section(m: InsertMode, tb: Seq<u8>, rows: Seq<Vec<SqlValue>>) -> Seq<u8> {
    ("--\n-- Dumping data for table `").spec_bytes() + tb + ("`\n--\n\n").spec_bytes()
        + spec_data_statement(m, tb, rows)
}

/// Renders the data section of one table.
pub fn render_data_section(mode: InsertMode, table: &str, rows: &Vec<Vec<SqlValue>>) -> (r: Vec<
    u8,
>)
    ensures
        r@ == spec_data_section(mode, table.spec_bytes(), rows@),
{
    let mut r: Vec<u8> = Vec::new();
    append_text(&mut r, "--\n-- Dumping data for table `");
    append_text(&mut r, table);
    append_text(&mut r, "`\n--\n\n");
    let stmt = render_data_statement(mode, table, rows);
    r.extend_from_slice(stmt.as_slice());
    proof {
        assert(r@ =~= spec_data_section(mode, table.spec_bytes(), rows@));
    }
    r
}

/// Every occurrence of `pat` in `s` replaced by `rep`, scanning left to
/// right without overlap, as the standard string replacement does. An
/// empty pattern matches nowhere and leaves the text unchanged.
pub open spec fn spec_replace(s: Seq<u8>, pat: Seq<u8>, rep: Seq<u8>) -> Seq<u8>
    decreases s.len(),
{
    if s.len() == 0 {
        Seq::empty()
    } else if pat.len() > 0 && s.len() >= pat.len() && s.take(pat.len() as int) == pat {
        rep + spec_replace(s.skip(pat.len() as int), pat, rep)
    } else {
        seq![s[0]] + spec_replace(s.drop_first(), pat, rep)
    }
}

/// Whether `pat` stands in `s` at position `i`.
fn bytes_match_at(s: &[u8], i: usize, pat: &[u8]) -> (r: bool)
    requires
        i + pat@.len() <= s@.len(),
    ensures
        r == (s@.subrange(i as int, i + pat@.len()) == pat@),
{
    let n = s.len();
    let m = pat.len();
    let mut j: usize = 0;
    while j < m
        invariant
            j <= m == pat@.len(),
            i + m <= n == s@.len(),
            forall|k: int| 0 <= k < j ==> s@[i + k] == pat@[k],
        decreases m - j,
    {
        if s[i + j] != pat[j] {
            proof {
                assert(s@.subrange(i as int, i + pat@.len())[j as int] != pat@[j as int]);
            }
            return false;
        }
        j = j + 1;
    }
    proof {
        assert(s@.subrange(i as int, i + pat@.len()) =~= pat@);
    }
    true
}

/// `spec_replace` with an empty pattern changes nothing.
proof fn lemma_replace_empty_pattern(s: Seq<u8>, rep: Seq<u8>)
    ensures
        spec_replace(s, Seq::empty(), rep) == s,
    decreases s.len(),
{
    if s.len() > 0 {
        lemma_replace_empty_pattern(s.drop_first(), rep);
        assert(seq![s[0]] + s.drop_first() =~= s);
    } else {
        assert(spec_replace(s, Seq::empty(), rep) =~= s);
    }
}

/// Replaces every occurrence of `pat` in `s` by `rep`, left to right
/// without overlap. An empty pattern leaves the text unchanged.
pub fn replace_bytes(s: &[u8], pat: &[u8], rep: &[u8]) -> (r: Vec<u8>)
    ensures
        r@ == spec_replace(s@, pat@, rep@),
{
    let n = s.len();
    let m = pat.len();
    let mut r: Vec<u8> = Vec::new();
    if m == 0 {
        r.extend_from_slice(s);
        proof {
            assert(pat@ =~= Seq::<u8>::empty());
            lemma_replace_empty_pattern(s@, rep@);
            assert(r@ =~= spec_replace(s@, pat@, rep@));
        }
        return r;
    }
    let mut i: usize = 0;
    proof {
        assert(s@.skip(0) =~= s@);
        assert(Seq::<u8>::empty() + spec_replace(s@, pat@, rep@) =~= spec_replace(s@, pat@, rep@));
    }
    while i < n
        invariant
            i <= n == s@.len(),
            m == pat@.len() > 0,
            r@ + spec_replace(s@.skip(i as int), pat@, rep@) == spec_replace(s@, pat@, rep@),
        decreases n - i,
    {
        let ghost rest = s@.skip(i as int);
        let ghost r_before = r@;
        if m <= n - i && bytes_match_at(s, i, pat) {
            r.extend_from_slice(rep);
            proof {
                assert(rest.take(m as int) =~= s@.subrange(i as int, i + m));
                assert(rest.skip(m as int) =~= s@.skip(i + m));
                assert(spec_replace(rest, pat@, rep@) == rep@ + spec_replace(
                    s@.skip(i + m),
                    pat@,
                    rep@,
                ));
                assert(r@ + spec_replace(s@.skip(i + m), pat@, rep@) =~= r_before + (rep@
                    + spec_replace(s@.skip(i + m), pat@, rep@)));
            }
            i = i + m;
        } else {
            r.push(s[i]);
            proof {
                if i + m <= n {
                    assert(rest.take(m as int) =~= s@.subrange(i as int, i + m));
                    assert(rest.take(m as int) != pat@);
                }
                assert(rest[0] == s@[i as int]);
                assert(rest.drop_first() =~= s@.skip(i + 1));
                assert(spec_replace(rest, pat@, rep@) == seq![s@[i as int]] + spec_replace(
                    s@.skip(i + 1),
                    pat@,
                    rep@,
                ));
                assert(r@ + spec_replace(s@.skip(i + 1), pat@, rep@) =~= r_before + (seq![
                    s@[i as int],
                ] + spec_replace(s@.skip(i + 1), pat@, rep@)));
            }
            i = i + 1;
        }
    }
    proof {
        assert(s@.skip(n as int) =~= Seq::<u8>::empty());
        assert(spec_replace(Seq::<u8>::empty(), pat@, rep@) == Seq::<u8>::empty());
        assert(r@ + Seq::<u8>::empty() =~= r@);
    }
    r
}

/// The structure section of one table in a dump: a comment banner, an
/// optional `DROP TABLE IF EXISTS` guard, and the creation statement —
/// rewritten to `CREATE TABLE IF NOT EXISTS` on request — terminated by
/// `;` and a blank line.
pub open spec fn spec_structure_section(
    tb: Seq<u8>,
    create: Seq<u8>,
    add_drop: bool,
    if_not_exists: bool,
) -> Seq<u8> {
    ("--\n-- Structure for table `").spec_bytes() + tb + ("`\n--\n\n").spec_bytes() + (
    if add_drop {
        ("DROP TABLE IF EXISTS `").spec_bytes() + tb + ("`;\n").spec_bytes()
    } else {
        Seq::<u8>::empty()
    }) + (if if_not_exists {
        spec_replace(
            create,
            ("CREATE TABLE").spec_bytes(),
            ("CREATE TABLE IF NOT EXISTS").spec_bytes(),
        )
    } else {
        create
    }) + (";\n\n").spec_bytes()
}

/// Renders the structure section of one table.
pub fn render_structure_section(
    table: &str,
    create_sql: &str,
    add_drop: bool,
    if_not_exists: bool,
) -> (r: Vec<u8>)
    ensures
        r@ == spec_structure_section(
            table.spec_bytes(),
            create_sql.spec_bytes(),
            add_drop,
            if_not_exists,
        ),
{
    let mut r: Vec<u8> = Vec::new();
    append_text(&mut r, "--\n-- Structure for table `");
    append_text(&mut r, table);
    append_text(&mut r, "`\n--\n\n");
    if add_drop {
        append_text(&mut r, "DROP TABLE IF EXISTS `");
        append_text(&mut r, table);
        append_text(&mut r, "`;\n");
    }
    if if_not_exists {
        let rewritten = replace_bytes(create_sql.as_bytes(), "CREATE TABLE".as_bytes(), (
        "CREATE TABLE IF NOT EXISTS").as_bytes());
        r.extend_from_slice(rewritten.as_slice());
    } else {
        append_text(&mut r, create_sql);
    }
    append_text(&mut r, ";\n\n");
    proof {
        assert(r@ =~= spec_structure_section(
            table.spec_bytes(),
            create_sql.spec_bytes(),
            add_drop,
            if_not_exists,
        ));
    }
    r
}

/// Whether two texts hold the same bytes.
fn str_eq_bytes(a: &str, b: &str) -> (r: bool)
    ensures
        r == (a.spec_bytes() == b.spec_bytes()),
{
    let ab = a.as_bytes();
    let bb = b.as_bytes();
    if ab.len() != bb.len() {
        proof {
            assert(a.spec_bytes() != b.spec_bytes());
        }
        return false;
    }
    if bytes_match_at(ab, 0, bb) {
        proof {
            assert(ab@.subrange(0, ab@.len() as int) =~= ab@);
        }
        true
    } else {
        proof {
            assert(ab@.subrange(0, ab@.len() as int) =~= ab@);
        }
        false
    }
}

/// The insertion mode a configuration text selects: the two named
/// alternatives, and plain insert for anything else.
pub open spec fn spec_insert_mode_of(m: Seq<u8>) -> InsertMode {
    if m == ("INSERT IGNORE").spec_bytes() {
        InsertMode::InsertIgnore
    } else if m == ("REPLACE").spec_bytes() {
        InsertMode::Replace
    } else {
        InsertMode::Insert
    }
}

/// Reads the requested insertion mode out of its configuration text.
pub fn insert_mode_of(mode: &str) -> (r: InsertMode)
    ensures
        r == spec_insert_mode_of(mode.spec_bytes()),
{
    if str_eq_bytes(mode, "INSERT IGNORE") {
        InsertMode::InsertIgnore
    } else if str_eq_bytes(mode, "REPLACE") {
        InsertMode::Replace
    } else {
        InsertMode::Insert
    }
}

/// What a dump was asked to contain: which tables, which sections, and
/// how rows are written back.
pub struct ExportOptions {
    /// The tables to export; all of them when absent.
    pub tables: Option<Vec<String>>,
    /// Whether each table's creation statement is written.
    pub export_structure: bool,
    /// Whether each table's rows are written.
    pub export_data: bool,
    /// Whether a `DROP TABLE IF EXISTS` guard precedes each creation.
    pub add_drop_table: bool,
    /// Whether the creation statement is written at all once dropped.
    pub add_create_table: bool,
    /// Whether creations are rewritten to `CREATE TABLE IF NOT EXISTS`.
    pub add_if_not_exists: bool,
    /// The insertion mode text: plain insert unless it names one of the
    /// two alternatives.
    pub data_insertion_mode: String,
}

/// Whether the selection holds a table of this name.
pub open spec fn spec_selection_contains(sel: Seq<String>, t: Seq<char>) -> bool {
    exists|k: int| 0 <= k < sel.len() && sel[k]@ == t
}

/// The tables of the database that the selection keeps, in their
/// database order.
pub open spec fn spec_selected_tables(all: Seq<String>, sel: Seq<String>) -> Seq<String>
    decreases all.len(),
{
    if all.len() == 0 {
        Seq::empty()
    } else if spec_selection_contains(sel, all[0]@) {
        seq![all[0]] + spec_selected_tables(all.drop_first(), sel)
    } else {
        spec_selected_tables(all.drop_first(), sel)
    }
}

/// Selecting distributes over extending the table list by one.
proof fn lemma_selected_tables_snoc(all: Seq<String>, sel: Seq<String>, x: String)
    ensures
        spec_selected_tables(all.push(x), sel) == spec_selected_tables(all, sel) + (
        if spec_selection_contains(sel, x@) {
            seq![x]
        } else {
            Seq::<String>::empty()
        }),
    decreases all.len(),
{
    let t = all.push(x);
    let tail = if spec_selection_contains(sel, x@) {
        seq![x]
    } else {
        Seq::<String>::empty()
    };
    if all.len() == 0 {
        assert(t[0] == x);
        assert(t.drop_first() =~= Seq::<String>::empty());
        assert(spec_selected_tables(Seq::<String>::empty(), sel) == Seq::<String>::empty());
        if spec_selection_contains(sel, x@) {
            assert(spec_selected_tables(t, sel) == seq![x] + spec_selected_tables(
                t.drop_first(),
                sel,
            ));
            assert(spec_selected_tables(t, sel) =~= spec_selected_tables(all, sel) + tail);
        } else {
            assert(spec_selected_tables(t, sel) =~= spec_selected_tables(all, sel) + tail);
        }
    } else {
        assert(t[0] == all[0]);
        assert(t.drop_first() =~= all.drop_first().push(x));
        lemma_selected_tables_snoc(all.drop_first(), sel, x);
        if spec_selection_contains(sel, all[0]@) {
            assert(seq![all[0]] + (spec_selected_tables(all.drop_first(), sel) + tail) =~= (seq![
                all[0],
            ] + spec_selected_tables(all.drop_first(), sel)) + tail);
        }
    }
}

/// Whether the selection holds this table name.
fn selection_contains(sel: &Vec<String>, t: &String) -> (r: bool)
    ensures
        r == spec_selection_contains(sel@, t@),
{
    let n = sel.len();
    let mut k: usize = 0;
    while k < n
        invariant
            k <= n == sel@.len(),
            forall|j: int| 0 <= j < k ==> sel@[j]@ != t@,
        decreases n - k,
    {
        if sel[k] == *t {
            return true;
        }
        k = k + 1;
    }
    false
}

/// Keeps the tables that the selection names, in their database order;
/// with no selection every table is kept. Import must see the tables in
/// the order the database listed them, since later sections may depend
/// on earlier ones.
pub fn filter_tables(all: &Vec<String>, selected: &Option<Vec<String>>) -> (r: Vec<String>)
    ensures
        match selected {
            Some(sel) => r@ == spec_selected_tables(all@, sel@),
            None => r@ == all@,
        },
{
    match selected {
        None => {
            let mut r: Vec<String> = Vec::new();
            let n = all.len();
            let mut i: usize = 0;
            proof {
                assert(r@ =~= all@.take(0));
            }
            while i < n
                invariant
                    i <= n == all@.len(),
                    r@ == all@.take(i as int),
                decreases n - i,
            {
                r.push(all[i].clone());
                proof {
                    assert(r@ =~= all@.take(i + 1));
                }
                i = i + 1;
            }
            proof {
                assert(all@.take(n as int) =~= all@);
            }
            r
        },
        Some(sel) => {
            let mut r: Vec<String> = Vec::new();
            let n = all.len();
            let mut i: usize = 0;
            proof {
                assert(all@.take(0) =~= Seq::<String>::empty());
                assert(r@ =~= spec_selected_tables(all@.take(0), sel@));
            }
            while i < n
                invariant
                    i <= n == all@.len(),
                    r@ == spec_selected_tables(all@.take(i as int), sel@),
                decreases n - i,
            {
                if selection_contains(sel, &all[i]) {
                    r.push(all[i].clone());
                }
                proof {
                    assert(all@.take(i + 1) =~= all@.take(i as int).push(all@[i as int]));
                    lemma_selected_tables_snoc(all@.take(i as int), sel@, all@[i as int]);
                    assert(r@ =~= spec_selected_tables(all@.take(i + 1), sel@));
                }
                i = i + 1;
            }
            proof {
                assert(all@.take(n as int) =~= all@);
            }
            r
        },
    }
}

/// The fixed opening of a dump file: the banner naming the database and
/// the date, then the session settings a restore needs.
pub open spec fn spec_dump_header(db: Seq<u8>, date: Seq<u8>) -> Seq<u8> {
    ("-- Pure Native SQL Manager Dump\n-- Database: ").spec_bytes() + db + (
    "\n-- Date: ").spec_bytes() + date + ("\n\n").spec_bytes() + (
    "SET SQL_MODE = \"NO_AUTO_VALUE_ON_ZERO\";\n").spec_bytes() + (
    "START TRANSACTION;\n").spec_bytes() + ("SET time_zone = \"+00:00\";\n\n").spec_bytes() + (
    "/*!40101 SET @OLD_CHARACTER_SET_CLIENT=@@CHARACTER_SET_CLIENT */;\n").spec_bytes() + (
    "/*!40101 SET @OLD_CHARACTER_SET_RESULTS=@@CHARACTER_SET_RESULTS */;\n").spec_bytes() + (
    "/*!40101 SET @OLD_COLLATION_CONNECTION=@@COLLATION_CONNECTION */;\n").spec_bytes() + (
    "/*!40101 SET NAMES utf8mb4 */;\n\n").spec_bytes()
}

/// Renders the opening of a dump of the named database; the caller
/// supplies the date text, since the clock is its business.
pub fn render_dump_header(db: &str, date: &str) -> (r: Vec<u8>)
    ensures
        r@ == spec_dump_header(db.spec_bytes(), date.spec_bytes()),
{
    let mut r: Vec<u8> = Vec::new();
    append_text(&mut r, "-- Pure Native SQL Manager Dump\n-- Database: ");
    append_text(&mut r, db);
    append_text(&mut r, "\n-- Date: ");
    append_text(&mut r, date);
    append_text(&mut r, "\n\n");
    append_text(&mut r, "SET SQL_MODE = \"NO_AUTO_VALUE_ON_ZERO\";\n");
    append_text(&mut r, "START TRANSACTION;\n");
    append_text(&mut r, "SET time_zone = \"+00:00\";\n\n");
    append_text(&mut r, "/*!40101 SET @OLD_CHARACTER_SET_CLIENT=@@CHARACTER_SET_CLIENT */;\n");
    append_text(&mut r, "/*!40101 SET @OLD_CHARACTER_SET_RESULTS=@@CHARACTER_SET_RESULTS */;\n");
    append_text(&mut r, "/*!40101 SET @OLD_COLLATION_CONNECTION=@@COLLATION_CONNECTION */;\n");
    append_text(&mut r, "/*!40101 SET NAMES utf8mb4 */;\n\n");
    proof {
        assert(r@ =~= spec_dump_header(db.spec_bytes(), date.spec_bytes()));
    }
    r
}

/// The fixed closing of a dump file: the commit and the restoration of
/// the session settings.
pub open spec fn spec_dump_footer() -> Seq<u8> {
    ("COMMIT;\n").spec_bytes() + (
    "/*!40101 SET CHARACTER_SET_CLIENT=@OLD_CHARACTER_SET_CLIENT */;\n").spec_bytes() + (
    "/*!40101 SET CHARACTER_SET_RESULTS=@OLD_CHARACTER_SET_RESULTS */;\n").spec_bytes() + (
    "/*!40101 SET COLLATION_CONNECTION=@OLD_COLLATION_CONNECTION */;\n").spec_bytes()
}

/// Renders the closing of a dump file.
pub fn render_dump_footer() -> (r: Vec<u8>)
    ensures
        r@ == spec_dump_footer(),
{
    let mut r: Vec<u8> = Vec::new();
    append_text(&mut r, "COMMIT;\n");
    append_text(&mut r, "/*!40101 SET CHARACTER_SET_CLIENT=@OLD_CHARACTER_SET_CLIENT */;\n");
    append_text(&mut r, "/*!40101 SET CHARACTER_SET_RESULTS=@OLD_CHARACTER_SET_RESULTS */;\n");
    append_text(&mut r, "/*!40101 SET COLLATION_CONNECTION=@OLD_COLLATION_CONNECTION */;\n");
    proof {
        assert(r@ =~= spec_dump_footer());
    }
    r
}

} // verus!
