//! The statement splitter: one left-to-right scan of a SQL text blob,
//! cutting it at every semicolon that stands outside quotes and comments.

use vstd::prelude::*;
use vstd::string::StringSliceAdditionalSpecFns;

verus! {

/// Semicolon, the statement separator.
pub const SEMI: u8 = 59;

/// Single quote, opening and closing a string literal.
pub const SQUOTE: u8 = 39;

/// Double quote, opening and closing an ANSI-mode string literal.
pub const DQUOTE: u8 = 34;

/// Backtick, opening and closing a quoted identifier.
pub const BACKTICK: u8 = 96;

/// Backslash, the escape character inside quoted literals.
pub const BSLASH: u8 = 92;

/// Dash; two in a row open a line comment.
pub const DASH: u8 = 45;

/// Hash, opening a line comment on its own.
pub const HASH: u8 = 35;

/// Slash; followed by a star it opens a block comment.
pub const SLASH: u8 = 47;

/// Star; followed by a slash it closes a block comment.
pub const STAR: u8 = 42;

/// Newline, ending a line comment.
pub const NL: u8 = 10;

/// The scanner is always in exactly one of these states. There is no
/// nesting: block comments do not nest and quotes do not nest.
#[derive(Clone, Copy)]
pub enum LexState {
    /// Outside every quote and comment; semicolons split here.
    Normal,
    /// Inside a `--` or `#` comment, until the next newline.
    LineComment,
    /// Inside a `/* ... */` comment, until the next star-slash.
    BlockComment,
    /// Inside a quoted literal; the payload is the quote byte that opened it.
    Quoted(u8),
}

/// Whitespace bytes stripped from the ends of each emitted statement.
pub open spec fn is_space(b: u8) -> bool {
    b == 9 || b == 10 || b == 11 || b == 12 || b == 13 || b == 32
}

/// The input with leading whitespace removed.
pub open spec fn trim_start(s: Seq<u8>) -> Seq<u8>
    decreases s.len(),
{
    if s.len() > 0 && is_space(s[0]) {
        trim_start(s.drop_first())
    } else {
        s
    }
}

/// The input with trailing whitespace removed.
pub open spec fn trim_end(s: Seq<u8>) -> Seq<u8>
    decreases s.len(),
{
    if s.len() > 0 && is_space(s.last()) {
        trim_end(s.drop_last())
    } else {
        s
    }
}

/// The input with whitespace removed from both ends.
pub open spec fn trim(s: Seq<u8>) -> Seq<u8> {
    trim_end(trim_start(s))
}

/// Strips leading and trailing whitespace bytes.
pub fn trim_bytes(s: &[u8]) -> (r: Vec<u8>)
    ensures
        r@ == trim(s@),
{
    let n = s.len();
    let mut lo: usize = 0;
    while lo < n && is_space_byte(s[lo])
        invariant
            0 <= lo <= n == s@.len(),
            forall|j: int| 0 <= j < lo ==> is_space(s@[j]),
        decreases n - lo,
    {
        lo = lo + 1;
    }
    proof {
        lemma_trim_start_skip(s@, lo as int);
    }
    let mut hi: usize = n;
    while hi > lo && is_space_byte(s[hi - 1])
        invariant
            lo <= hi <= n == s@.len(),
            forall|j: int| hi <= j < n ==> is_space(s@[j]),
        decreases hi,
    {
        hi = hi - 1;
    }
    proof {
        lemma_trim_end_take(s@.skip(lo as int), hi - lo);
    }
    let mut r: Vec<u8> = Vec::new();
    let mut i: usize = lo;
    while i < hi
        invariant
            lo <= i <= hi <= s@.len(),
            r@ == s@.subrange(lo as int, i as int),
        decreases hi - i,
    {
        r.push(s[i]);
        assert(r@ =~= s@.subrange(lo as int, i + 1));
        i = i + 1;
    }
    proof {
        assert(r@ =~= s@.skip(lo as int).take(hi - lo as int));
    }
    r
}

/// Executable mirror of `is_space`.
pub fn is_space_byte(b: u8) -> (r: bool)
    ensures
        r == is_space(b),
{
    b == 9 || b == 10 || b == 11 || b == 12 || b == 13 || b == 32
}

/// If the first `k` bytes are whitespace and byte `k` (when present) is not,
/// trimming the front leaves exactly the bytes from `k` on.
proof fn lemma_trim_start_skip(s: Seq<u8>, k: int)
    requires
        0 <= k <= s.len(),
        forall|j: int| 0 <= j < k ==> is_space(s[j]),
        k == s.len() || !is_space(s[k]),
    ensures
        trim_start(s) == s.skip(k),
    decreases k,
{
    if k == 0 {
        assert(s.skip(0) =~= s);
    } else {
        lemma_trim_start_skip(s.drop_first(), k - 1);
        assert(s.drop_first().skip(k - 1) =~= s.skip(k));
    }
}

/// If the bytes from `m` on are whitespace and byte `m - 1` (when present)
/// is not, trimming the back leaves exactly the first `m` bytes.
proof fn lemma_trim_end_take(s: Seq<u8>, m: int)
    requires
        0 <= m <= s.len(),
        forall|j: int| m <= j < s.len() ==> is_space(s[j]),
        m == 0 || !is_space(s[m - 1]),
    ensures
        trim_end(s) == s.take(m),
    decreases s.len(),
{
    if m == s.len() {
        if s.len() > 0 && is_space(s.last()) {
            assert(!is_space(s[m - 1]));
            assert(false);
        }
        assert(s.take(m) =~= s);
    } else {
        assert(is_space(s.last()));
        lemma_trim_end_take(s.drop_last(), m);
        assert(s.drop_last().take(m) =~= s.take(m));
    }
}

/// Appends the trimmed buffer to the finished statements, unless it trims
/// to nothing; a statement is never empty.
pub open spec fn flush(done: Seq<Seq<u8>>, cur: Seq<u8>) -> Seq<Seq<u8>> {
    if trim(cur).len() == 0 {
        done
    } else {
        done.push(trim(cur))
    }
}

/// The statements produced by scanning `s` from position `i` in state `st`,
/// with `cur` the text accumulated for the statement in progress and `done`
/// the statements already emitted. One step consumes one byte, or two where
/// the input text pairs them: `--`, `/*`, `*/`, a backslash escape, and
/// a doubled quote.
pub open spec fn split_from(
    s: Seq<u8>,
    i: int,
    st: LexState,
    cur: Seq<u8>,
    done: Seq<Seq<u8>>,
) -> Seq<Seq<u8>>
    decreases s.len() - i,
{
    if i < 0 || i >= s.len() {
        flush(done, cur)
    } else {
        let c = s[i];
        match st {
            LexState::LineComment => {
                if c == NL {
                    split_from(s, i + 1, LexState::Normal, cur.push(c), done)
                } else {
                    split_from(s, i + 1, LexState::LineComment, cur, done)
                }
            },
            LexState::BlockComment => {
                if c == STAR && i + 1 < s.len() && s[i + 1] == SLASH {
                    split_from(s, i + 2, LexState::Normal, cur.push(c).push(SLASH), done)
                } else {
                    split_from(s, i + 1, LexState::BlockComment, cur.push(c), done)
                }
            },
            LexState::Quoted(q) => {
                if c == BSLASH {
                    if i + 1 < s.len() {
                        split_from(s, i + 2, LexState::Quoted(q), cur.push(c).push(s[i + 1]), done)
                    } else {
                        split_from(s, i + 1, LexState::Quoted(q), cur.push(c), done)
                    }
                } else if c == q {
                    if i + 1 < s.len() && s[i + 1] == q {
                        split_from(s, i + 2, LexState::Quoted(q), cur.push(c).push(q), done)
                    } else {
                        split_from(s, i + 1, LexState::Normal, cur.push(c), done)
                    }
                } else {
                    split_from(s, i + 1, LexState::Quoted(q), cur.push(c), done)
                }
            },
            LexState::Normal => {
                if c == DASH && i + 1 < s.len() && s[i + 1] == DASH {
                    split_from(s, i + 2, LexState::LineComment, cur, done)
                } else if c == HASH {
                    split_from(s, i + 1, LexState::LineComment, cur, done)
                } else if c == SLASH && i + 1 < s.len() && s[i + 1] == STAR {
                    split_from(s, i + 2, LexState::BlockComment, cur.push(c).push(STAR), done)
                } else if c == SQUOTE || c == DQUOTE || c == BACKTICK {
                    split_from(s, i + 1, LexState::Quoted(c), cur.push(c), done)
                } else if c == SEMI {
                    split_from(s, i + 1, LexState::Normal, Seq::empty(), flush(done, cur))
                } else {
                    split_from(s, i + 1, LexState::Normal, cur.push(c), done)
                }
            },
        }
    }
}

/// The ordered statements of a SQL text blob: the text cut at every
/// semicolon that stands outside quotes and comments, each piece trimmed,
/// empty pieces dropped, and an unterminated final piece still emitted.
pub open spec fn spec_split(s: Seq<u8>) -> Seq<Seq<u8>> {
    split_from(s, 0, LexState::Normal, Seq::empty(), Seq::empty())
}

/// Splits a SQL text blob into its executable statements, in order of
/// appearance. Total over arbitrary bytes: malformed SQL, unterminated
/// quotes and unterminated comments never fail, they only extend the
/// final statement.
pub fn split_sql_statements(sql: &[u8]) -> (out: Vec<Vec<u8>>)
    ensures
        out.deep_view() == spec_split(sql@),
        all_statements_wellformed(out.deep_view()),
{
    proof {
        lemma_statements_wellformed(sql@);
    }
    let n = sql.len();
    let mut out: Vec<Vec<u8>> = Vec::new();
    let mut cur: Vec<u8> = Vec::new();
    let mut st = LexState::Normal;
    let mut i: usize = 0;
    proof {
        assert(out.deep_view() =~= Seq::<Seq<u8>>::empty());
        assert(cur@ =~= Seq::<u8>::empty());
    }
    while i < n
        invariant
            i <= n == sql@.len(),
            split_from(sql@, i as int, st, cur@, out.deep_view()) == spec_split(sql@),
        decreases n - i,
    {
        let c = sql[i];
        match st {
            LexState::LineComment => {
                if c == NL {
                    cur.push(c);
                    st = LexState::Normal;
                }
                i = i + 1;
            },
            LexState::BlockComment => {
                cur.push(c);
                if c == STAR && i + 1 < n && sql[i + 1] == SLASH {
                    cur.push(SLASH);
                    st = LexState::Normal;
                    i = i + 2;
                } else {
                    i = i + 1;
                }
            },
            LexState::Quoted(q) => {
                cur.push(c);
                if c == BSLASH {
                    if i + 1 < n {
                        cur.push(sql[i + 1]);
                        i = i + 2;
                    } else {
                        i = i + 1;
                    }
                } else if c == q {
                    if i + 1 < n && sql[i + 1] == q {
                        cur.push(q);
                        i = i + 2;
                    } else {
                        st = LexState::Normal;
                        i = i + 1;
                    }
                } else {
                    i = i + 1;
                }
            },
            LexState::Normal => {
                if c == DASH && i + 1 < n && sql[i + 1] == DASH {
                    st = LexState::LineComment;
                    i = i + 2;
                } else if c == HASH {
                    st = LexState::LineComment;
                    i = i + 1;
                } else if c == SLASH && i + 1 < n && sql[i + 1] == STAR {
                    cur.push(SLASH);
                    cur.push(STAR);
                    st = LexState::BlockComment;
                    i = i + 2;
                } else if c == SQUOTE || c == DQUOTE || c == BACKTICK {
                    cur.push(c);
                    st = LexState::Quoted(c);
                    i = i + 1;
                } else if c == SEMI {
                    let t = trim_bytes(cur.as_slice());
                    if t.len() > 0 {
                        let ghost old_dv = out.deep_view();
                        out.push(t);
                        proof {
                            assert(t.deep_view() =~= t@);
                            assert(out.deep_view() =~= old_dv.push(t.deep_view()));
                            assert(out.deep_view() == old_dv.push(trim(cur@)));
                        }
                    }
                    cur = Vec::new();
                    proof {
                        assert(cur@ =~= Seq::<u8>::empty());
                    }
                    i = i + 1;
                } else {
                    cur.push(c);
                    i = i + 1;
                }
            },
        }
    }
    let t = trim_bytes(cur.as_slice());
    if t.len() > 0 {
        let ghost old_dv = out.deep_view();
        out.push(t);
        proof {
            assert(t.deep_view() =~= t@);
            assert(out.deep_view() =~= old_dv.push(t.deep_view()));
            assert(out.deep_view() == old_dv.push(trim(cur@)));
        }
    }
    out
}

/// Splits a SQL text into its executable statements, scanning the
/// text's UTF-8 bytes. Every byte that decides a split — quote,
/// backslash, comment mark, semicolon — is ASCII, so multi-byte
/// characters pass through unharmed; a backslash escape consumes the
/// single byte after it.
pub fn split_sql_text(sql: &str) -> (out: Vec<Vec<u8>>)
    ensures
        out.deep_view() == spec_split(sql.spec_bytes()),
        all_statements_wellformed(out.deep_view()),
{
    split_sql_statements(sql.as_bytes())
}

/// Trimming the front leaves no leading whitespace.
proof fn lemma_trim_start_head(s: Seq<u8>)
    ensures
        trim_start(s).len() > 0 ==> !is_space(trim_start(s)[0]),
    decreases s.len(),
{
    if s.len() > 0 && is_space(s[0]) {
        lemma_trim_start_head(s.drop_first());
    }
}

/// Trimming the back leaves no trailing whitespace.
proof fn lemma_trim_end_last(s: Seq<u8>)
    ensures
        trim_end(s).len() > 0 ==> !is_space(trim_end(s).last()),
    decreases s.len(),
{
    if s.len() > 0 && is_space(s.last()) {
        lemma_trim_end_last(s.drop_last());
    }
}

/// Trimming the back keeps a prefix of the input unchanged.
proof fn lemma_trim_end_is_prefix(s: Seq<u8>)
    ensures
        trim_end(s).len() <= s.len(),
        trim_end(s) == s.take(trim_end(s).len() as int),
    decreases s.len(),
{
    if s.len() > 0 && is_space(s.last()) {
        lemma_trim_end_is_prefix(s.drop_last());
        assert(s.drop_last().take(trim_end(s).len() as int) =~= s.take(
            trim_end(s).len() as int,
        ));
    } else {
        assert(s.take(s.len() as int) =~= s);
    }
}

/// Trimming is idempotent: a trimmed text trims to itself.
pub proof fn lemma_trim_idempotent(s: Seq<u8>)
    ensures
        trim(trim(s)) == trim(s),
{
    let u = trim_start(s);
    let v = trim_end(u);
    lemma_trim_start_head(s);
    lemma_trim_end_last(u);
    lemma_trim_end_is_prefix(u);
    if v.len() > 0 {
        assert(v[0] == u[0]);
        assert(!is_space(v[0]));
        assert(trim_start(v) == v);
        assert(!is_space(v.last()));
        assert(trim_end(v) == v);
    } else {
        assert(trim_start(v) == v);
        assert(trim_end(v) == v);
    }
}

/// Holds when every statement in the list is nonempty and carries no
/// leading or trailing whitespace.
pub open spec fn all_statements_wellformed(stmts: Seq<Seq<u8>>) -> bool {
    forall|k: int|
        0 <= k < stmts.len() ==> (#[trigger] stmts[k]).len() > 0 && trim(stmts[k]) == stmts[k]
}

/// A text that neither starts nor ends with whitespace trims to itself.
pub proof fn lemma_trim_noop(s: Seq<u8>)
    requires
        s.len() > 0,
        !is_space(s[0]),
        !is_space(s.last()),
    ensures
        trim(s) == s,
{
    assert(trim_start(s) == s);
    assert(trim_end(s) == s);
}

/// Every statement list reachable by the scan keeps its statements
/// nonempty and trimmed.
proof fn lemma_split_from_wellformed(
    s: Seq<u8>,
    i: int,
    st: LexState,
    cur: Seq<u8>,
    done: Seq<Seq<u8>>,
)
    requires
        all_statements_wellformed(done),
    ensures
        all_statements_wellformed(split_from(s, i, st, cur, done)),
    decreases s.len() - i,
{
    if i < 0 || i >= s.len() {
        lemma_trim_idempotent(cur);
        assert(all_statements_wellformed(flush(done, cur)));
    } else {
        let c = s[i];
        match st {
            LexState::LineComment => {
                if c == NL {
                    lemma_split_from_wellformed(s, i + 1, LexState::Normal, cur.push(c), done);
                } else {
                    lemma_split_from_wellformed(s, i + 1, LexState::LineComment, cur, done);
                }
            },
            LexState::BlockComment => {
                if c == STAR && i + 1 < s.len() && s[i + 1] == SLASH {
                    lemma_split_from_wellformed(
                        s,
                        i + 2,
                        LexState::Normal,
                        cur.push(c).push(SLASH),
                        done,
                    );
                } else {
                    lemma_split_from_wellformed(
                        s,
                        i + 1,
                        LexState::BlockComment,
                        cur.push(c),
                        done,
                    );
                }
            },
            LexState::Quoted(q) => {
                if c == BSLASH {
                    if i + 1 < s.len() {
                        lemma_split_from_wellformed(
                            s,
                            i + 2,
                            LexState::Quoted(q),
                            cur.push(c).push(s[i + 1]),
                            done,
                        );
                    } else {
                        lemma_split_from_wellformed(
                            s,
                            i + 1,
                            LexState::Quoted(q),
                            cur.push(c),
                            done,
                        );
                    }
                } else if c == q {
                    if i + 1 < s.len() && s[i + 1] == q {
                        lemma_split_from_wellformed(
                            s,
                            i + 2,
                            LexState::Quoted(q),
                            cur.push(c).push(q),
                            done,
                        );
                    } else {
                        lemma_split_from_wellformed(s, i + 1, LexState::Normal, cur.push(c), done);
                    }
                } else {
                    lemma_split_from_wellformed(s, i + 1, LexState::Quoted(q), cur.push(c), done);
                }
            },
            LexState::Normal => {
                if c == DASH && i + 1 < s.len() && s[i + 1] == DASH {
                    lemma_split_from_wellformed(s, i + 2, LexState::LineComment, cur, done);
                } else if c == HASH {
                    lemma_split_from_wellformed(s, i + 1, LexState::LineComment, cur, done);
                } else if c == SLASH && i + 1 < s.len() && s[i + 1] == STAR {
                    lemma_split_from_wellformed(
                        s,
                        i + 2,
                        LexState::BlockComment,
                        cur.push(c).push(STAR),
                        done,
                    );
                } else if c == SQUOTE || c == DQUOTE || c == BACKTICK {
                    lemma_split_from_wellformed(
                        s,
                        i + 1,
                        LexState::Quoted(c),
                        cur.push(c),
                        done,
                    );
                } else if c == SEMI {
                    lemma_trim_idempotent(cur);
                    assert(all_statements_wellformed(flush(done, cur)));
                    lemma_split_from_wellformed(
                        s,
                        i + 1,
                        LexState::Normal,
                        Seq::empty(),
                        flush(done, cur),
                    );
                } else {
                    lemma_split_from_wellformed(s, i + 1, LexState::Normal, cur.push(c), done);
                }
            },
        }
    }
}

/// Every statement the splitter emits is nonempty and carries no leading
/// or trailing whitespace.
pub proof fn lemma_statements_wellformed(s: Seq<u8>)
    ensures
        all_statements_wellformed(spec_split(s)),
{
    lemma_split_from_wellformed(s, 0, LexState::Normal, Seq::empty(), Seq::empty());
}

/// Holds when scanning `s` from position `i` in state `st` never meets a
/// statement separator and never drops a byte. It rules out an unquoted,
/// uncommented semicolon, and also a line comment: a line comment's text
/// (and the `--` or `#` that opens it) is not retained in the statement,
/// so a text containing one does not come back whole.
pub open spec fn keeps_whole_text(s: Seq<u8>, i: int, st: LexState) -> bool
    decreases s.len() - i,
{
    if i < 0 || i >= s.len() {
        true
    } else {
        let c = s[i];
        match st {
            LexState::LineComment => false,
            LexState::BlockComment => {
                if c == STAR && i + 1 < s.len() && s[i + 1] == SLASH {
                    keeps_whole_text(s, i + 2, LexState::Normal)
                } else {
                    keeps_whole_text(s, i + 1, LexState::BlockComment)
                }
            },
            LexState::Quoted(q) => {
                if c == BSLASH {
                    if i + 1 < s.len() {
                        keeps_whole_text(s, i + 2, LexState::Quoted(q))
                    } else {
                        keeps_whole_text(s, i + 1, LexState::Quoted(q))
                    }
                } else if c == q {
                    if i + 1 < s.len() && s[i + 1] == q {
                        keeps_whole_text(s, i + 2, LexState::Quoted(q))
                    } else {
                        keeps_whole_text(s, i + 1, LexState::Normal)
                    }
                } else {
                    keeps_whole_text(s, i + 1, LexState::Quoted(q))
                }
            },
            LexState::Normal => {
                if c == DASH && i + 1 < s.len() && s[i + 1] == DASH {
                    false
                } else if c == HASH {
                    false
                } else if c == SLASH && i + 1 < s.len() && s[i + 1] == STAR {
                    keeps_whole_text(s, i + 2, LexState::BlockComment)
                } else if c == SQUOTE || c == DQUOTE || c == BACKTICK {
                    keeps_whole_text(s, i + 1, LexState::Quoted(c))
                } else if c == SEMI {
                    false
                } else {
                    keeps_whole_text(s, i + 1, LexState::Normal)
                }
            },
        }
    }
}

/// On a byte-keeping run the scan appends the whole remaining text to the
/// statement in progress and emits nothing more until the end.
proof fn lemma_keeps_whole_run(s: Seq<u8>, i: int, st: LexState, cur: Seq<u8>, done: Seq<Seq<u8>>)
    requires
        0 <= i <= s.len(),
        keeps_whole_text(s, i, st),
    ensures
        split_from(s, i, st, cur, done) == flush(done, cur + s.skip(i)),
    decreases s.len() - i,
{
    if i >= s.len() {
        assert(cur + s.skip(i) =~= cur);
    } else {
        let c = s[i];
        match st {
            LexState::LineComment => {
                assert(false);
            },
            LexState::BlockComment => {
                if c == STAR && i + 1 < s.len() && s[i + 1] == SLASH {
                    lemma_keeps_whole_run(s, i + 2, LexState::Normal, cur.push(c).push(SLASH), done);
                    assert(cur.push(c).push(SLASH) + s.skip(i + 2) =~= cur + s.skip(i));
                } else {
                    lemma_keeps_whole_run(s, i + 1, LexState::BlockComment, cur.push(c), done);
                    assert(cur.push(c) + s.skip(i + 1) =~= cur + s.skip(i));
                }
            },
            LexState::Quoted(q) => {
                if c == BSLASH {
                    if i + 1 < s.len() {
                        lemma_keeps_whole_run(
                            s,
                            i + 2,
                            LexState::Quoted(q),
                            cur.push(c).push(s[i + 1]),
                            done,
                        );
                        assert(cur.push(c).push(s[i + 1]) + s.skip(i + 2) =~= cur + s.skip(i));
                    } else {
                        lemma_keeps_whole_run(s, i + 1, LexState::Quoted(q), cur.push(c), done);
                        assert(cur.push(c) + s.skip(i + 1) =~= cur + s.skip(i));
                    }
                } else if c == q {
                    if i + 1 < s.len() && s[i + 1] == q {
                        lemma_keeps_whole_run(
                            s,
                            i + 2,
                            LexState::Quoted(q),
                            cur.push(c).push(q),
                            done,
                        );
                        assert(cur.push(c).push(q) + s.skip(i + 2) =~= cur + s.skip(i));
                    } else {
                        lemma_keeps_whole_run(s, i + 1, LexState::Normal, cur.push(c), done);
                        assert(cur.push(c) + s.skip(i + 1) =~= cur + s.skip(i));
                    }
                } else {
                    lemma_keeps_whole_run(s, i + 1, LexState::Quoted(q), cur.push(c), done);
                    assert(cur.push(c) + s.skip(i + 1) =~= cur + s.skip(i));
                }
            },
            LexState::Normal => {
                if c == DASH && i + 1 < s.len() && s[i + 1] == DASH {
                    assert(false);
                } else if c == HASH {
                    assert(false);
                } else if c == SLASH && i + 1 < s.len() && s[i + 1] == STAR {
                    lemma_keeps_whole_run(
                        s,
                        i + 2,
                        LexState::BlockComment,
                        cur.push(c).push(STAR),
                        done,
                    );
                    assert(cur.push(c).push(STAR) + s.skip(i + 2) =~= cur + s.skip(i));
                } else if c == SQUOTE || c == DQUOTE || c == BACKTICK {
                    lemma_keeps_whole_run(s, i + 1, LexState::Quoted(c), cur.push(c), done);
                    assert(cur.push(c) + s.skip(i + 1) =~= cur + s.skip(i));
                } else if c == SEMI {
                    assert(false);
                } else {
                    lemma_keeps_whole_run(s, i + 1, LexState::Normal, cur.push(c), done);
                    assert(cur.push(c) + s.skip(i + 1) =~= cur + s.skip(i));
                }
            },
        }
    }
}

/// A text in which the scan meets no separator and drops no byte splits
/// into exactly one statement, the text itself trimmed — or into none at
/// all when it trims to nothing.
pub proof fn lemma_single_statement(s: Seq<u8>)
    requires
        keeps_whole_text(s, 0, LexState::Normal),
    ensures
        spec_split(s) == if trim(s).len() == 0 {
            Seq::<Seq<u8>>::empty()
        } else {
            seq![trim(s)]
        },
{
    lemma_keeps_whole_run(s, 0, LexState::Normal, Seq::empty(), Seq::empty());
    assert(Seq::<u8>::empty() + s.skip(0) =~= s);
    if trim(s).len() != 0 {
        assert(Seq::<Seq<u8>>::empty().push(trim(s)) =~= seq![trim(s)]);
    }
}

} // verus!
