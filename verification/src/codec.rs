//! The value codec: encoding one typed value as a SQL literal, and the
//! reading model a standards-conforming SQL parser applies to that
//! literal, with proofs that the two compose to the identity.

use vstd::prelude::*;
use crate::numeral::{
    all_digits, dec_digits, dec_padded, dec_signed, dec_value, i64_to_decimal,
    lemma_dec_digits_are_digits, lemma_dec_padded, lemma_dec_padded_exact,
    lemma_dec_value_of_digits, pow10, u64_to_decimal, u64_to_decimal_padded,
};
use crate::splitter::{
    keeps_whole_text, lemma_single_statement, lemma_trim_noop, spec_split, trim, BSLASH, LexState,
    NL, SQUOTE,
};
use crate::value::SqlValue;

verus! {

/// Carriage return, escaped inside quoted literals.
pub const CR: u8 = 13;

/// Ctrl-Z, escaped inside quoted literals.
pub const CTRLZ: u8 = 26;

/// ASCII lowercase n, the escape tag for a newline.
pub const LOWER_N: u8 = 110;

/// ASCII lowercase r, the escape tag for a carriage return.
pub const LOWER_R: u8 = 114;

/// ASCII digit zero, the escape tag for a NUL byte.
pub const DIGIT_0: u8 = 48;

/// ASCII uppercase Z, the escape tag for Ctrl-Z.
pub const UPPER_Z: u8 = 90;

/// How one content byte appears inside a single-quoted literal. The six
/// delimiter-sensitive bytes are replaced by a backslash pair; every
/// other byte passes through unchanged.
pub open spec fn escape_byte(b: u8) -> Seq<u8> {
    if b == BSLASH {
        seq![BSLASH, BSLASH]
    } else if b == SQUOTE {
        seq![BSLASH, SQUOTE]
    } else if b == NL {
        seq![BSLASH, LOWER_N]
    } else if b == CR {
        seq![BSLASH, LOWER_R]
    } else if b == 0 {
        seq![BSLASH, DIGIT_0]
    } else if b == CTRLZ {
        seq![BSLASH, UPPER_Z]
    } else {
        seq![b]
    }
}

/// The quoted-literal form of a whole byte sequence: each byte escaped
/// in turn. Escaping the backslash itself (rather than passing it
/// through) is what keeps the pairs introduced for the other five bytes
/// from being re-read as content.
pub open spec fn escape_bytes(s: Seq<u8>) -> Seq<u8>
    decreases s.len(),
{
    if s.len() == 0 {
        Seq::empty()
    } else {
        escape_byte(s[0]) + escape_bytes(s.drop_first())
    }
}

/// Escaping distributes over extending the content by one byte.
pub proof fn lemma_escape_bytes_push(s: Seq<u8>, b: u8)
    ensures
        escape_bytes(s.push(b)) == escape_bytes(s) + escape_byte(b),
    decreases s.len(),
{
    let t = s.push(b);
    assert(t[0] == if s.len() == 0 {
        b
    } else {
        s[0]
    });
    assert(escape_bytes(t) == escape_byte(t[0]) + escape_bytes(t.drop_first()));
    if s.len() == 0 {
        assert(t.drop_first() =~= Seq::<u8>::empty());
        assert(escape_bytes(t.drop_first()) == Seq::<u8>::empty());
        assert(escape_bytes(s) == Seq::<u8>::empty());
        assert(escape_byte(b) + Seq::<u8>::empty() =~= Seq::<u8>::empty() + escape_byte(b));
    } else {
        assert(t.drop_first() =~= s.drop_first().push(b));
        lemma_escape_bytes_push(s.drop_first(), b);
        assert(escape_bytes(s) == escape_byte(s[0]) + escape_bytes(s.drop_first()));
        assert(escape_byte(s[0]) + (escape_bytes(s.drop_first()) + escape_byte(b)) =~= (
        escape_byte(s[0]) + escape_bytes(s.drop_first())) + escape_byte(b));
    }
}

/// Escapes every byte of `s` for use inside a single-quoted literal.
pub fn escape_content(s: &[u8]) -> (r: Vec<u8>)
    ensures
        r@ == escape_bytes(s@),
{
    let n = s.len();
    let mut r: Vec<u8> = Vec::new();
    let mut i: usize = 0;
    proof {
        assert(s@.take(0) =~= Seq::<u8>::empty());
    }
    while i < n
        invariant
            i <= n == s@.len(),
            r@ == escape_bytes(s@.take(i as int)),
        decreases n - i,
    {
        let b = s[i];
        if b == BSLASH {
            r.push(BSLASH);
            r.push(BSLASH);
        } else if b == SQUOTE {
            r.push(BSLASH);
            r.push(SQUOTE);
        } else if b == NL {
            r.push(BSLASH);
            r.push(LOWER_N);
        } else if b == CR {
            r.push(BSLASH);
            r.push(LOWER_R);
        } else if b == 0 {
            r.push(BSLASH);
            r.push(DIGIT_0);
        } else if b == CTRLZ {
            r.push(BSLASH);
            r.push(UPPER_Z);
        } else {
            r.push(b);
        }
        proof {
            assert(s@.take(i + 1) =~= s@.take(i as int).push(b));
            lemma_escape_bytes_push(s@.take(i as int), b);
            assert(r@ =~= escape_bytes(s@.take(i as int)) + escape_byte(b));
        }
        i = i + 1;
    }
    proof {
        assert(s@.take(n as int) =~= s@);
    }
    r
}

/// The SQL literal for one typed value, byte for byte: `NULL` bare,
/// numbers as plain decimal text, byte content escaped inside single
/// quotes, a timestamp as `'YYYY-MM-DD HH:MM:SS.ffffff'`, and a duration
/// as `'[-]H:MM:SS.ffffff'` with the day count folded into the hours.
pub open spec fn spec_encode(v: SqlValue) -> Seq<u8> {
    match v {
        SqlValue::Null => seq![78u8, 85u8, 76u8, 76u8],
        SqlValue::Int(n) => dec_signed(n as int),
        SqlValue::UInt(n) => dec_digits(n as nat),
        SqlValue::Float(t) => t@,
        SqlValue::Double(t) => t@,
        SqlValue::Bytes(b) => seq![SQUOTE] + escape_bytes(b@) + seq![SQUOTE],
        SqlValue::DateTime { year, month, day, hour, minute, second, micros } => seq![SQUOTE]
            + dec_padded(year as nat, 4) + seq![45u8] + dec_padded(month as nat, 2) + seq![45u8]
            + dec_padded(day as nat, 2) + seq![32u8] + dec_padded(hour as nat, 2) + seq![58u8]
            + dec_padded(minute as nat, 2) + seq![58u8] + dec_padded(second as nat, 2)
            + seq![46u8] + dec_padded(micros as nat, 6) + seq![SQUOTE],
        SqlValue::Time { negative, days, hours, minutes, seconds, micros } => seq![SQUOTE] + (
        if negative {
            seq![45u8]
        } else {
            Seq::<u8>::empty()
        }) + dec_digits((days * 24 + hours) as nat) + seq![58u8] + dec_padded(minutes as nat, 2)
            + seq![58u8] + dec_padded(seconds as nat, 2) + seq![46u8] + dec_padded(
            micros as nat,
            6,
        ) + seq![SQUOTE],
    }
}

/// Encodes one typed value as a SQL literal ready to stand in a VALUES
/// clause. Total: every value kind has a defined encoding. NULL is
/// always the bare four-letter keyword, never a quoted text.
pub fn encode_value(v: &SqlValue) -> (r: Vec<u8>)
    ensures
        r@ == spec_encode(*v),
{
    match v {
        SqlValue::Null => {
            let mut r: Vec<u8> = Vec::new();
            r.push(78);
            r.push(85);
            r.push(76);
            r.push(76);
            proof {
                assert(r@ =~= spec_encode(*v));
            }
            r
        },
        SqlValue::Int(n) => i64_to_decimal(*n),
        SqlValue::UInt(n) => u64_to_decimal(*n),
        SqlValue::Float(t) => {
            let mut r: Vec<u8> = Vec::new();
            r.extend_from_slice(t.as_slice());
            proof {
                assert(r@ =~= spec_encode(*v));
            }
            r
        },
        SqlValue::Double(t) => {
            let mut r: Vec<u8> = Vec::new();
            r.extend_from_slice(t.as_slice());
            proof {
                assert(r@ =~= spec_encode(*v));
            }
            r
        },
        SqlValue::Bytes(b) => {
            let mut r: Vec<u8> = Vec::new();
            r.push(SQUOTE);
            let esc = escape_content(b.as_slice());
            r.extend_from_slice(esc.as_slice());
            r.push(SQUOTE);
            proof {
                assert(r@ =~= spec_encode(*v));
            }
            r
        },
        SqlValue::DateTime { year, month, day, hour, minute, second, micros } => {
            let mut r: Vec<u8> = Vec::new();
            r.push(SQUOTE);
            let p = u64_to_decimal_padded(*year as u64, 4);
            r.extend_from_slice(p.as_slice());
            r.push(45);
            let p = u64_to_decimal_padded(*month as u64, 2);
            r.extend_from_slice(p.as_slice());
            r.push(45);
            let p = u64_to_decimal_padded(*day as u64, 2);
            r.extend_from_slice(p.as_slice());
            r.push(32);
            let p = u64_to_decimal_padded(*hour as u64, 2);
            r.extend_from_slice(p.as_slice());
            r.push(58);
            let p = u64_to_decimal_padded(*minute as u64, 2);
            r.extend_from_slice(p.as_slice());
            r.push(58);
            let p = u64_to_decimal_padded(*second as u64, 2);
            r.extend_from_slice(p.as_slice());
            r.push(46);
            let p = u64_to_decimal_padded(*micros as u64, 6);
            r.extend_from_slice(p.as_slice());
            r.push(SQUOTE);
            proof {
                assert(r@ =~= spec_encode(*v));
            }
            r
        },
        SqlValue::Time { negative, days, hours, minutes, seconds, micros } => {
            let mut r: Vec<u8> = Vec::new();
            r.push(SQUOTE);
            if *negative {
                r.push(45);
            }
            let total_hours: u64 = (*days as u64) * 24 + (*hours as u64);
            let p = u64_to_decimal(total_hours);
            r.extend_from_slice(p.as_slice());
            r.push(58);
            let p = u64_to_decimal_padded(*minutes as u64, 2);
            r.extend_from_slice(p.as_slice());
            r.push(58);
            let p = u64_to_decimal_padded(*seconds as u64, 2);
            r.extend_from_slice(p.as_slice());
            r.push(46);
            let p = u64_to_decimal_padded(*micros as u64, 6);
            r.extend_from_slice(p.as_slice());
            r.push(SQUOTE);
            proof {
                assert(r@ =~= spec_encode(*v));
            }
            r
        },
    }
}

/// The byte sequence a standards-conforming SQL reader gives to a
/// backslash followed by `b` inside a quoted literal: the recognized
/// escape tags map to their control bytes, `%` and `_` keep their
/// backslash, and any other byte stands for itself.
pub open spec fn unescape_map(b: u8) -> Seq<u8> {
    if b == DIGIT_0 {
        seq![0u8]
    } else if b == 98 {
        seq![8u8]
    } else if b == LOWER_N {
        seq![NL]
    } else if b == LOWER_R {
        seq![CR]
    } else if b == 116 {
        seq![9u8]
    } else if b == UPPER_Z {
        seq![CTRLZ]
    } else if b == 37 || b == 95 {
        seq![BSLASH, b]
    } else {
        seq![b]
    }
}

/// The content a SQL reader recovers from position `i` of a
/// single-quoted literal: backslash pairs are unescaped, a doubled
/// quote stands for one quote, and a lone quote must close the literal
/// exactly at its end. `None` when the literal is unterminated or has
/// trailing text.
pub open spec fn read_quoted_content(s: Seq<u8>, i: int) -> Option<Seq<u8>>
    decreases s.len() - i,
{
    if i < 0 || i >= s.len() {
        None
    } else if s[i] == BSLASH {
        if i + 1 < s.len() {
            match read_quoted_content(s, i + 2) {
                None => None,
                Some(t) => Some(unescape_map(s[i + 1]) + t),
            }
        } else {
            None
        }
    } else if s[i] == SQUOTE {
        if i + 1 == s.len() {
            Some(Seq::empty())
        } else if s[i + 1] == SQUOTE {
            match read_quoted_content(s, i + 2) {
                None => None,
                Some(t) => Some(seq![SQUOTE] + t),
            }
        } else {
            None
        }
    } else {
        match read_quoted_content(s, i + 1) {
            None => None,
            Some(t) => Some(seq![s[i]] + t),
        }
    }
}

/// The byte content a SQL reader recovers from a whole single-quoted
/// literal, or `None` when the text is not one single literal.
pub open spec fn spec_read_string_literal(lit: Seq<u8>) -> Option<Seq<u8>> {
    if lit.len() >= 2 && lit[0] == SQUOTE {
        read_quoted_content(lit, 1)
    } else {
        None
    }
}

/// Reading an escaped content run followed by the closing quote
/// recovers exactly the bytes that were escaped.
proof fn lemma_read_escaped_run(full: Seq<u8>, i: int, b: Seq<u8>)
    requires
        0 <= i <= full.len(),
        full.skip(i) == escape_bytes(b) + seq![SQUOTE],
    ensures
        read_quoted_content(full, i) == Some(b),
    decreases b.len(),
{
    let rest = full.skip(i);
    assert(rest.len() == escape_bytes(b).len() + 1);
    if b.len() == 0 {
        assert(rest =~= seq![SQUOTE]);
        assert(full[i] == rest[0]);
        assert(i + 1 == full.len());
        assert(read_quoted_content(full, i) == Some(Seq::<u8>::empty()));
        assert(b =~= Seq::<u8>::empty());
    } else {
        let c = b[0];
        assert(escape_bytes(b) == escape_byte(c) + escape_bytes(b.drop_first()));
        let w = escape_byte(c).len() as int;
        assert(full[i] == rest[0]);
        assert(rest[0] == escape_byte(c)[0]);
        if w == 2 {
            assert(full[i + 1] == rest[1]);
            assert(rest[1] == escape_byte(c)[1]);
        }
        assert(rest.skip(w) =~= escape_bytes(b.drop_first()) + seq![SQUOTE]);
        assert(full.skip(i + w) =~= rest.skip(w));
        lemma_read_escaped_run(full, i + w, b.drop_first());
        if c == BSLASH {
            assert(full[i] == BSLASH && full[i + 1] == BSLASH);
            assert(unescape_map(BSLASH) =~= seq![BSLASH]);
            assert(seq![BSLASH] + b.drop_first() =~= b);
        } else if c == SQUOTE {
            assert(full[i] == BSLASH && full[i + 1] == SQUOTE);
            assert(unescape_map(SQUOTE) =~= seq![SQUOTE]);
            assert(seq![SQUOTE] + b.drop_first() =~= b);
        } else if c == NL {
            assert(full[i] == BSLASH && full[i + 1] == LOWER_N);
            assert(unescape_map(LOWER_N) =~= seq![NL]);
            assert(seq![NL] + b.drop_first() =~= b);
        } else if c == CR {
            assert(full[i] == BSLASH && full[i + 1] == LOWER_R);
            assert(unescape_map(LOWER_R) =~= seq![CR]);
            assert(seq![CR] + b.drop_first() =~= b);
        } else if c == 0 {
            assert(full[i] == BSLASH && full[i + 1] == DIGIT_0);
            assert(unescape_map(DIGIT_0) =~= seq![0u8]);
            assert(seq![0u8] + b.drop_first() =~= b);
        } else if c == CTRLZ {
            assert(full[i] == BSLASH && full[i + 1] == UPPER_Z);
            assert(unescape_map(UPPER_Z) =~= seq![CTRLZ]);
            assert(seq![CTRLZ] + b.drop_first() =~= b);
        } else {
            assert(full[i] == c);
            assert(c != BSLASH && c != SQUOTE);
            assert(seq![c] + b.drop_first() =~= b);
        }
    }
}

/// Any byte content, escaped and wrapped in single quotes, is read back
/// byte for byte by a standards-conforming SQL reader. With the decoder
/// above this is the round trip of the byte-string encoding.
pub proof fn lemma_escaped_literal_reads_back(b: Seq<u8>)
    ensures
        spec_read_string_literal(seq![SQUOTE] + escape_bytes(b) + seq![SQUOTE]) == Some(b),
{
    let lit = seq![SQUOTE] + escape_bytes(b) + seq![SQUOTE];
    assert(lit[0] == SQUOTE);
    assert(lit.len() >= 2);
    assert(lit.skip(1) =~= escape_bytes(b) + seq![SQUOTE]);
    lemma_read_escaped_run(lit, 1, b);
}

/// Round trip of a byte-string value: its encoding is one single-quoted
/// literal whose content reads back as exactly the value's bytes.
pub proof fn lemma_bytes_round_trip(v: SqlValue)
    requires
        v matches SqlValue::Bytes(_),
    ensures
        v matches SqlValue::Bytes(b) ==> spec_read_string_literal(spec_encode(v)) == Some(b@),
{
    if let SqlValue::Bytes(b) = v {
        lemma_escaped_literal_reads_back(b@);
    }
}

/// The rest of a read with a recovered prefix in front, when the rest
/// succeeds at all.
pub open spec fn prepend_read(pre: Seq<u8>, rest: Option<Seq<u8>>) -> Option<Seq<u8>> {
    match rest {
        None => None,
        Some(t) => Some(pre + t),
    }
}

/// Reads the byte content back out of one single-quoted literal, the
/// way a standards-conforming SQL reader would: `None` when the text is
/// not exactly one whole literal. On anything the encoder produced this
/// recovers the encoded bytes.
pub fn decode_string_literal(lit: &[u8]) -> (r: Option<Vec<u8>>)
    ensures
        match r {
            Some(v) => spec_read_string_literal(lit@) == Some(v@),
            None => spec_read_string_literal(lit@) is None,
        },
{
    let n = lit.len();
    if n < 2 || lit[0] != SQUOTE {
        return None;
    }
    let mut out: Vec<u8> = Vec::new();
    let mut i: usize = 1;
    proof {
        if read_quoted_content(lit@, 1) is Some {
            assert(out@ + read_quoted_content(lit@, 1).unwrap() =~= read_quoted_content(
                lit@,
                1,
            ).unwrap());
        }
    }
    while i < n
        invariant
            1 <= i <= n == lit@.len(),
            2 <= n,
            lit@[0] == SQUOTE,
            read_quoted_content(lit@, 1) == prepend_read(out@, read_quoted_content(lit@, i as int)),
        decreases n - i,
    {
        let ghost out_before = out@;
        let c = lit[i];
        if c == BSLASH {
            if i + 1 < n {
                let x = lit[i + 1];
                if x == DIGIT_0 {
                    out.push(0);
                } else if x == 98 {
                    out.push(8);
                } else if x == LOWER_N {
                    out.push(NL);
                } else if x == LOWER_R {
                    out.push(CR);
                } else if x == 116 {
                    out.push(9);
                } else if x == UPPER_Z {
                    out.push(CTRLZ);
                } else if x == 37 || x == 95 {
                    out.push(BSLASH);
                    out.push(x);
                } else {
                    out.push(x);
                }
                proof {
                    assert(out@ =~= out_before + unescape_map(x));
                    if read_quoted_content(lit@, i + 2) is Some {
                        assert(out@ + read_quoted_content(lit@, i + 2).unwrap() =~= out_before + (
                        unescape_map(x) + read_quoted_content(lit@, i + 2).unwrap()));
                    }
                }
                i = i + 2;
            } else {
                return None;
            }
        } else if c == SQUOTE {
            if i + 1 == n {
                proof {
                    assert(read_quoted_content(lit@, i as int) == Some(Seq::<u8>::empty()));
                    assert(out@ + Seq::<u8>::empty() =~= out@);
                }
                return Some(out);
            } else if lit[i + 1] == SQUOTE {
                out.push(SQUOTE);
                proof {
                    if read_quoted_content(lit@, i + 2) is Some {
                        assert(out@ + read_quoted_content(lit@, i + 2).unwrap() =~= out_before + (
                        seq![SQUOTE] + read_quoted_content(lit@, i + 2).unwrap()));
                    }
                }
                i = i + 2;
            } else {
                return None;
            }
        } else {
            out.push(c);
            proof {
                if read_quoted_content(lit@, i + 1) is Some {
                    assert(out@ + read_quoted_content(lit@, i + 1).unwrap() =~= out_before + (seq![
                        c,
                    ] + read_quoted_content(lit@, i + 1).unwrap()));
                }
            }
            i = i + 1;
        }
    }
    None
}

/// Encoding NULL yields the bare four-letter keyword, never a quoted
/// text: the literal opens with `N`, not with a quote.
pub proof fn lemma_null_unquoted()
    ensures
        spec_encode(SqlValue::Null) == seq![78u8, 85u8, 76u8, 76u8],
        spec_encode(SqlValue::Null)[0] != SQUOTE,
{
}

/// The signed number a SQL reader gives to a bare decimal literal:
/// an optional minus sign followed by digits.
pub open spec fn spec_read_integer(s: Seq<u8>) -> Option<int> {
    if s.len() > 1 && s[0] == 45 && all_digits(s.skip(1)) {
        Some(-dec_value(s.skip(1)))
    } else if s.len() > 0 && all_digits(s) {
        Some(dec_value(s))
    } else {
        None
    }
}

/// Round trip of a signed integer value: its literal reads back as the
/// same number.
pub proof fn lemma_int_round_trip(n: i64)
    ensures
        spec_read_integer(spec_encode(SqlValue::Int(n))) == Some(n as int),
{
    let s = spec_encode(SqlValue::Int(n));
    if n >= 0 {
        lemma_dec_digits_are_digits(n as nat);
        lemma_dec_value_of_digits(n as nat);
        assert(s[0] != 45);
    } else {
        let m = (-(n as int)) as nat;
        lemma_dec_digits_are_digits(m);
        lemma_dec_value_of_digits(m);
        assert(s[0] == 45);
        assert(s.skip(1) =~= dec_digits(m));
    }
}

/// Round trip of an unsigned integer value: its literal reads back as
/// the same number.
pub proof fn lemma_uint_round_trip(n: u64)
    ensures
        spec_read_integer(spec_encode(SqlValue::UInt(n))) == Some(n as int),
{
    lemma_dec_digits_are_digits(n as nat);
    lemma_dec_value_of_digits(n as nat);
    assert(spec_encode(SqlValue::UInt(n))[0] != 45);
}

/// The seven timestamp fields a SQL reader gives to a quoted
/// `'YYYY-MM-DD HH:MM:SS.ffffff'` literal, or `None` when the text does
/// not have that exact shape.
pub open spec fn spec_read_datetime_literal(lit: Seq<u8>) -> Option<(int, int, int, int, int, int, int)> {
    if lit.len() == 28 && lit[0] == SQUOTE && lit[27] == SQUOTE && all_digits(lit.subrange(1, 5))
        && lit[5] == 45 && all_digits(lit.subrange(6, 8)) && lit[8] == 45 && all_digits(
        lit.subrange(9, 11),
    ) && lit[11] == 32 && all_digits(lit.subrange(12, 14)) && lit[14] == 58 && all_digits(
        lit.subrange(15, 17),
    ) && lit[17] == 58 && all_digits(lit.subrange(18, 20)) && lit[20] == 46 && all_digits(
        lit.subrange(21, 27),
    ) {
        Some(
            (
                dec_value(lit.subrange(1, 5)),
                dec_value(lit.subrange(6, 8)),
                dec_value(lit.subrange(9, 11)),
                dec_value(lit.subrange(12, 14)),
                dec_value(lit.subrange(15, 17)),
                dec_value(lit.subrange(18, 20)),
                dec_value(lit.subrange(21, 27)),
            ),
        )
    } else {
        None
    }
}

/// Powers of ten up to the widths the codec pads to.
proof fn lemma_small_pow10()
    ensures
        pow10(2) == 100,
        pow10(4) == 10000,
        pow10(6) == 1000000,
{
    assert(pow10(0) == 1);
    assert(pow10(1) == 10);
    assert(pow10(2) == 100);
    assert(pow10(3) == 1000);
    assert(pow10(4) == 10000);
    assert(pow10(5) == 100000);
    assert(pow10(6) == 1000000);
}

/// Round trip of a timestamp value: its literal has the fixed
/// `'YYYY-MM-DD HH:MM:SS.ffffff'` shape and reads back field by field.
pub proof fn lemma_datetime_round_trip(
    year: u16,
    month: u8,
    day: u8,
    hour: u8,
    minute: u8,
    second: u8,
    micros: u32,
)
    requires
        year <= 9999,
        1 <= month <= 12,
        1 <= day <= 31,
        hour <= 23,
        minute <= 59,
        second <= 59,
        micros <= 999999,
    ensures
        spec_read_datetime_literal(
            spec_encode(SqlValue::DateTime { year, month, day, hour, minute, second, micros }),
        ) == Some(
            (
                year as int,
                month as int,
                day as int,
                hour as int,
                minute as int,
                second as int,
                micros as int,
            ),
        ),
{
    lemma_small_pow10();
    lemma_dec_padded_exact(year as nat, 4);
    lemma_dec_padded_exact(month as nat, 2);
    lemma_dec_padded_exact(day as nat, 2);
    lemma_dec_padded_exact(hour as nat, 2);
    lemma_dec_padded_exact(minute as nat, 2);
    lemma_dec_padded_exact(second as nat, 2);
    lemma_dec_padded_exact(micros as nat, 6);
    let lit = spec_encode(SqlValue::DateTime { year, month, day, hour, minute, second, micros });
    assert(lit.len() == 28);
    assert(lit.subrange(1, 5) =~= dec_padded(year as nat, 4));
    assert(lit.subrange(6, 8) =~= dec_padded(month as nat, 2));
    assert(lit.subrange(9, 11) =~= dec_padded(day as nat, 2));
    assert(lit.subrange(12, 14) =~= dec_padded(hour as nat, 2));
    assert(lit.subrange(15, 17) =~= dec_padded(minute as nat, 2));
    assert(lit.subrange(18, 20) =~= dec_padded(second as nat, 2));
    assert(lit.subrange(21, 27) =~= dec_padded(micros as nat, 6));
    assert(lit[0] == SQUOTE && lit[27] == SQUOTE);
    assert(lit[5] == 45 && lit[8] == 45 && lit[11] == 32);
    assert(lit[14] == 58 && lit[17] == 58 && lit[20] == 46);
}

/// What a SQL reader gives to a quoted `'[-]H:MM:SS.ffffff'` interval
/// literal: the sign flag, the total hour count (which may exceed two
/// digits), and the minute, second and microsecond fields; `None` when
/// the text does not have that shape.
pub open spec fn spec_read_time_literal(lit: Seq<u8>) -> Option<(bool, int, int, int, int)> {
    if lit.len() >= 2 && lit[0] == SQUOTE && lit.last() == SQUOTE {
        let body = lit.subrange(1, lit.len() - 1);
        let neg = body.len() > 0 && body[0] == 45;
        let mag = if neg {
            body.drop_first()
        } else {
            body
        };
        let hlen = mag.len() - 13;
        if mag.len() >= 14 && all_digits(mag.take(hlen)) && mag[hlen] == 58 && all_digits(
            mag.subrange(hlen + 1, hlen + 3),
        ) && mag[hlen + 3] == 58 && all_digits(mag.subrange(hlen + 4, hlen + 6)) && mag[hlen + 6]
            == 46 && all_digits(mag.subrange(hlen + 7, hlen + 13)) {
            Some(
                (
                    neg,
                    dec_value(mag.take(hlen)),
                    dec_value(mag.subrange(hlen + 1, hlen + 3)),
                    dec_value(mag.subrange(hlen + 4, hlen + 6)),
                    dec_value(mag.subrange(hlen + 7, hlen + 13)),
                ),
            )
        } else {
            None
        }
    } else {
        None
    }
}

/// Round trip of a duration value: its literal reads back as the same
/// sign, the same total hour count, and the same minute, second and
/// microsecond fields; days and hours are recovered from the hour count
/// by division.
pub proof fn lemma_time_round_trip(
    negative: bool,
    days: u32,
    hours: u8,
    minutes: u8,
    seconds: u8,
    micros: u32,
)
    requires
        hours <= 23,
        minutes <= 59,
        seconds <= 59,
        micros <= 999999,
    ensures
        spec_read_time_literal(
            spec_encode(SqlValue::Time { negative, days, hours, minutes, seconds, micros }),
        ) == Some(
            (
                negative,
                days * 24 + hours as int,
                minutes as int,
                seconds as int,
                micros as int,
            ),
        ),
        (days * 24 + hours as int) / 24 == days as int,
        (days * 24 + hours as int) % 24 == hours as int,
{
    lemma_small_pow10();
    let total: nat = (days * 24 + hours) as nat;
    lemma_dec_digits_are_digits(total);
    lemma_dec_value_of_digits(total);
    lemma_dec_padded_exact(minutes as nat, 2);
    lemma_dec_padded_exact(seconds as nat, 2);
    lemma_dec_padded_exact(micros as nat, 6);
    let lit = spec_encode(SqlValue::Time { negative, days, hours, minutes, seconds, micros });
    let h = dec_digits(total);
    let tail = seq![58u8] + dec_padded(minutes as nat, 2) + seq![58u8] + dec_padded(
        seconds as nat,
        2,
    ) + seq![46u8] + dec_padded(micros as nat, 6);
    assert(tail.len() == 13);
    assert(lit.last() == SQUOTE);
    let body = lit.subrange(1, lit.len() - 1);
    if negative {
        assert(body =~= seq![45u8] + h + tail);
        assert(body[0] == 45);
        assert(body.drop_first() =~= h + tail);
    } else {
        assert(body =~= h + tail);
        assert(body[0] == h[0]);
        assert(48 <= body[0] <= 57);
    }
    let mag = if negative {
        body.drop_first()
    } else {
        body
    };
    assert(mag =~= h + tail);
    let hlen = mag.len() - 13;
    assert(hlen == h.len());
    assert(mag.take(hlen) =~= h);
    assert(mag.subrange(hlen + 1, hlen + 3) =~= dec_padded(minutes as nat, 2));
    assert(mag.subrange(hlen + 4, hlen + 6) =~= dec_padded(seconds as nat, 2));
    assert(mag.subrange(hlen + 7, hlen + 13) =~= dec_padded(micros as nat, 6));
    assert(mag[hlen] == 58 && mag[hlen + 3] == 58 && mag[hlen + 6] == 46);
    assert((days * 24 + hours as int) / 24 == days as int && (days * 24 + hours as int) % 24
        == hours as int) by (nonlinear_arith)
        requires
            hours <= 23,
    ;
}

/// A byte that can stand in an unquoted literal the encoder emits: a
/// digit, a minus sign, a decimal point, or one of the letters N, U, L.
pub open spec fn is_bare_literal_byte(b: u8) -> bool {
    48 <= b <= 57 || b == 45 || b == 46 || b == 78 || b == 85 || b == 76
}

/// Scanning an unquoted literal meets no separator and drops nothing:
/// its bytes are never a semicolon, a comment opener or a quote, and a
/// minus sign stands only first, so no `--` pair can form.
proof fn lemma_keeps_bare_literal(s: Seq<u8>, i: int)
    requires
        0 <= i <= s.len(),
        forall|j: int| 0 <= j < s.len() ==> is_bare_literal_byte(#[trigger] s[j]),
        forall|j: int| 1 <= j < s.len() ==> #[trigger] s[j] != 45,
    ensures
        keeps_whole_text(s, i, LexState::Normal),
    decreases s.len() - i,
{
    if i < s.len() {
        lemma_keeps_bare_literal(s, i + 1);
    }
}

/// Holds when no byte of the content could end a single-quoted literal
/// early: no quote and no backslash at all.
pub open spec fn quote_clean(s: Seq<u8>) -> bool {
    forall|j: int| 0 <= j < s.len() ==> #[trigger] s[j] != SQUOTE && s[j] != BSLASH
}

/// Quote-cleanliness is preserved by joining two clean texts.
proof fn lemma_quote_clean_concat(a: Seq<u8>, b: Seq<u8>)
    requires
        quote_clean(a),
        quote_clean(b),
    ensures
        quote_clean(a + b),
{
    assert forall|j: int| 0 <= j < (a + b).len() implies (#[trigger] (a + b)[j]) != SQUOTE && (a
        + b)[j] != BSLASH by {
        if j < a.len() {
            assert((a + b)[j] == a[j]);
        } else {
            assert((a + b)[j] == b[j - a.len()]);
        }
    }
}

/// A run of digits is quote-clean.
proof fn lemma_digits_quote_clean(s: Seq<u8>)
    requires
        all_digits(s),
    ensures
        quote_clean(s),
{
}

/// Scanning quote-clean content followed by the closing quote stays in
/// the quote until its end and keeps every byte.
proof fn lemma_keeps_quoted_clean(full: Seq<u8>, i: int, t: Seq<u8>)
    requires
        0 <= i <= full.len(),
        full.skip(i) == t + seq![SQUOTE],
        quote_clean(t),
        i + t.len() + 1 == full.len(),
    ensures
        keeps_whole_text(full, i, LexState::Quoted(SQUOTE)),
    decreases t.len(),
{
    let rest = full.skip(i);
    if t.len() == 0 {
        assert(full[i] == rest[0]);
        assert(full[i] == SQUOTE);
        assert(i + 1 == full.len());
        assert(keeps_whole_text(full, i + 1, LexState::Normal));
    } else {
        assert(full[i] == rest[0]);
        assert(rest[0] == t[0]);
        assert(t[0] != SQUOTE && t[0] != BSLASH);
        assert(rest.skip(1) =~= t.drop_first() + seq![SQUOTE]);
        assert(full.skip(i + 1) =~= rest.skip(1));
        assert(quote_clean(t.drop_first()));
        lemma_keeps_quoted_clean(full, i + 1, t.drop_first());
    }
}

/// Scanning escaped content followed by the closing quote stays in the
/// quote until its end: every quote inside arrives escaped, never bare.
proof fn lemma_keeps_quoted_escaped(full: Seq<u8>, i: int, b: Seq<u8>)
    requires
        0 <= i <= full.len(),
        full.skip(i) == escape_bytes(b) + seq![SQUOTE],
        i + escape_bytes(b).len() + 1 == full.len(),
    ensures
        keeps_whole_text(full, i, LexState::Quoted(SQUOTE)),
    decreases b.len(),
{
    let rest = full.skip(i);
    if b.len() == 0 {
        assert(rest =~= seq![SQUOTE]);
        assert(full[i] == rest[0]);
        assert(full[i] == SQUOTE);
        assert(i + 1 == full.len());
        assert(keeps_whole_text(full, i + 1, LexState::Normal));
    } else {
        let c = b[0];
        assert(escape_bytes(b) == escape_byte(c) + escape_bytes(b.drop_first()));
        let w = escape_byte(c).len() as int;
        assert(full[i] == rest[0]);
        assert(rest[0] == escape_byte(c)[0]);
        if w == 2 {
            assert(full[i + 1] == rest[1]);
            assert(rest[1] == escape_byte(c)[1]);
        }
        assert(rest.skip(w) =~= escape_bytes(b.drop_first()) + seq![SQUOTE]);
        assert(full.skip(i + w) =~= rest.skip(w));
        lemma_keeps_quoted_escaped(full, i + w, b.drop_first());
        if c == BSLASH || c == SQUOTE || c == NL || c == CR || c == 0 || c == CTRLZ {
            assert(full[i] == BSLASH);
            assert(i + 1 < full.len());
        } else {
            assert(full[i] == c);
            assert(c != SQUOTE && c != BSLASH);
        }
    }
}

/// An unquoted literal of safe bytes, with any minus sign leading,
/// splits into exactly one statement: itself.
proof fn lemma_one_statement_bare(s: Seq<u8>)
    requires
        s.len() > 0,
        forall|j: int| 0 <= j < s.len() ==> is_bare_literal_byte(#[trigger] s[j]),
        forall|j: int| 1 <= j < s.len() ==> #[trigger] s[j] != 45,
    ensures
        spec_split(s) == seq![s],
{
    lemma_keeps_bare_literal(s, 0);
    lemma_trim_noop(s);
    lemma_single_statement(s);
}

/// A single-quoted literal whose content the scan cannot leave early
/// splits into exactly one statement: itself.
proof fn lemma_one_statement_quoted(s: Seq<u8>)
    requires
        s.len() >= 2,
        s[0] == SQUOTE,
        s.last() == SQUOTE,
        keeps_whole_text(s, 1, LexState::Quoted(SQUOTE)),
    ensures
        spec_split(s) == seq![s],
{
    assert(keeps_whole_text(s, 0, LexState::Normal));
    lemma_trim_noop(s);
    lemma_single_statement(s);
}

/// Every literal the encoder emits passes through the statement
/// splitter whole: it splits into exactly one statement, the literal
/// itself. No delimiter byte inside the value can cause a spurious cut.
pub proof fn lemma_encoded_value_is_one_statement(v: SqlValue)
    requires
        v.wf(),
    ensures
        spec_split(spec_encode(v)) == seq![spec_encode(v)],
{
    let s = spec_encode(v);
    match v {
        SqlValue::Null => {
            assert(forall|j: int| 0 <= j < s.len() ==> is_bare_literal_byte(#[trigger] s[j]));
            lemma_one_statement_bare(s);
        },
        SqlValue::Int(n) => {
            if n >= 0 {
                lemma_dec_digits_are_digits(n as nat);
            } else {
                lemma_dec_digits_are_digits((-(n as int)) as nat);
            }
            assert(forall|j: int| 0 <= j < s.len() ==> is_bare_literal_byte(#[trigger] s[j]));
            assert(forall|j: int| 1 <= j < s.len() ==> #[trigger] s[j] != 45);
            lemma_one_statement_bare(s);
        },
        SqlValue::UInt(n) => {
            lemma_dec_digits_are_digits(n as nat);
            assert(forall|j: int| 0 <= j < s.len() ==> is_bare_literal_byte(#[trigger] s[j]));
            assert(forall|j: int| 1 <= j < s.len() ==> #[trigger] s[j] != 45);
            lemma_one_statement_bare(s);
        },
        SqlValue::Float(t) => {
            assert(forall|j: int| 0 <= j < s.len() ==> is_bare_literal_byte(#[trigger] s[j]));
            assert(forall|j: int| 1 <= j < s.len() ==> #[trigger] s[j] != 45);
            lemma_one_statement_bare(s);
        },
        SqlValue::Double(t) => {
            assert(forall|j: int| 0 <= j < s.len() ==> is_bare_literal_byte(#[trigger] s[j]));
            assert(forall|j: int| 1 <= j < s.len() ==> #[trigger] s[j] != 45);
            lemma_one_statement_bare(s);
        },
        SqlValue::Bytes(b) => {
            assert(s.skip(1) =~= escape_bytes(b@) + seq![SQUOTE]);
            lemma_keeps_quoted_escaped(s, 1, b@);
            lemma_one_statement_quoted(s);
        },
        SqlValue::DateTime { year, month, day, hour, minute, second, micros } => {
            lemma_datetime_one_statement(year, month, day, hour, minute, second, micros);
        },
        SqlValue::Time { negative, days, hours, minutes, seconds, micros } => {
            lemma_time_one_statement(negative, days, hours, minutes, seconds, micros);
        },
    }
}

/// The timestamp case of the one-statement law: the quoted timestamp
/// literal holds only digits and punctuation, so the scan stays inside
/// the quote until its closing byte.
#[verifier::rlimit(50)]
proof fn lemma_datetime_one_statement(
    year: u16,
    month: u8,
    day: u8,
    hour: u8,
    minute: u8,
    second: u8,
    micros: u32,
)
    requires
        year <= 9999,
        micros <= 999999,
    ensures
        spec_split(
            spec_encode(SqlValue::DateTime { year, month, day, hour, minute, second, micros }),
        ) == seq![
            spec_encode(SqlValue::DateTime { year, month, day, hour, minute, second, micros }),
        ],
{
    let s = spec_encode(SqlValue::DateTime { year, month, day, hour, minute, second, micros });
    lemma_dec_padded(year as nat, 4);
    lemma_dec_padded(month as nat, 2);
    lemma_dec_padded(day as nat, 2);
    lemma_dec_padded(hour as nat, 2);
    lemma_dec_padded(minute as nat, 2);
    lemma_dec_padded(second as nat, 2);
    lemma_dec_padded(micros as nat, 6);
    let p1 = dec_padded(year as nat, 4);
    let p2 = dec_padded(month as nat, 2);
    let p3 = dec_padded(day as nat, 2);
    let p4 = dec_padded(hour as nat, 2);
    let p5 = dec_padded(minute as nat, 2);
    let p6 = dec_padded(second as nat, 2);
    let p7 = dec_padded(micros as nat, 6);
    lemma_digits_quote_clean(p1);
    lemma_digits_quote_clean(p2);
    lemma_digits_quote_clean(p3);
    lemma_digits_quote_clean(p4);
    lemma_digits_quote_clean(p5);
    lemma_digits_quote_clean(p6);
    lemma_digits_quote_clean(p7);
    let inner = p1 + seq![45u8] + p2 + seq![45u8] + p3 + seq![32u8] + p4 + seq![58u8] + p5
        + seq![58u8] + p6 + seq![46u8] + p7;
    lemma_quote_clean_concat(p1, seq![45u8]);
    lemma_quote_clean_concat(p1 + seq![45u8], p2);
    lemma_quote_clean_concat(p1 + seq![45u8] + p2, seq![45u8]);
    lemma_quote_clean_concat(p1 + seq![45u8] + p2 + seq![45u8], p3);
    lemma_quote_clean_concat(p1 + seq![45u8] + p2 + seq![45u8] + p3, seq![32u8]);
    lemma_quote_clean_concat(p1 + seq![45u8] + p2 + seq![45u8] + p3 + seq![32u8], p4);
    lemma_quote_clean_concat(p1 + seq![45u8] + p2 + seq![45u8] + p3 + seq![32u8] + p4, seq![58u8]);
    lemma_quote_clean_concat(
        p1 + seq![45u8] + p2 + seq![45u8] + p3 + seq![32u8] + p4 + seq![58u8],
        p5,
    );
    lemma_quote_clean_concat(
        p1 + seq![45u8] + p2 + seq![45u8] + p3 + seq![32u8] + p4 + seq![58u8] + p5,
        seq![58u8],
    );
    lemma_quote_clean_concat(
        p1 + seq![45u8] + p2 + seq![45u8] + p3 + seq![32u8] + p4 + seq![58u8] + p5 + seq![58u8],
        p6,
    );
    lemma_quote_clean_concat(
        p1 + seq![45u8] + p2 + seq![45u8] + p3 + seq![32u8] + p4 + seq![58u8] + p5 + seq![58u8]
            + p6,
        seq![46u8],
    );
    lemma_quote_clean_concat(
        p1 + seq![45u8] + p2 + seq![45u8] + p3 + seq![32u8] + p4 + seq![58u8] + p5 + seq![58u8]
            + p6 + seq![46u8],
        p7,
    );
    assert(quote_clean(inner));
    assert(s =~= seq![SQUOTE] + inner + seq![SQUOTE]);
    assert(s.skip(1) =~= inner + seq![SQUOTE]);
    lemma_keeps_quoted_clean(s, 1, inner);
    assert(s[0] == SQUOTE && s.last() == SQUOTE);
    lemma_one_statement_quoted(s);
}

/// The duration case of the one-statement law: the quoted interval
/// literal holds only digits, a sign and punctuation, so the scan stays
/// inside the quote until its closing byte.
proof fn lemma_time_one_statement(
    negative: bool,
    days: u32,
    hours: u8,
    minutes: u8,
    seconds: u8,
    micros: u32,
)
    requires
        micros <= 999999,
    ensures
        spec_split(
            spec_encode(SqlValue::Time { negative, days, hours, minutes, seconds, micros }),
        ) == seq![
            spec_encode(SqlValue::Time { negative, days, hours, minutes, seconds, micros }),
        ],
{
    let s = spec_encode(SqlValue::Time { negative, days, hours, minutes, seconds, micros });
    let h = dec_digits((days * 24 + hours) as nat);
    lemma_dec_digits_are_digits((days * 24 + hours) as nat);
    lemma_dec_padded(minutes as nat, 2);
    lemma_dec_padded(seconds as nat, 2);
    lemma_dec_padded(micros as nat, 6);
    let sign = if negative {
        seq![45u8]
    } else {
        Seq::<u8>::empty()
    };
    let p5 = dec_padded(minutes as nat, 2);
    let p6 = dec_padded(seconds as nat, 2);
    let p7 = dec_padded(micros as nat, 6);
    lemma_digits_quote_clean(h);
    lemma_digits_quote_clean(p5);
    lemma_digits_quote_clean(p6);
    lemma_digits_quote_clean(p7);
    let inner = sign + h + seq![58u8] + p5 + seq![58u8] + p6 + seq![46u8] + p7;
    assert(quote_clean(sign));
    lemma_quote_clean_concat(sign, h);
    lemma_quote_clean_concat(sign + h, seq![58u8]);
    lemma_quote_clean_concat(sign + h + seq![58u8], p5);
    lemma_quote_clean_concat(sign + h + seq![58u8] + p5, seq![58u8]);
    lemma_quote_clean_concat(sign + h + seq![58u8] + p5 + seq![58u8], p6);
    lemma_quote_clean_concat(sign + h + seq![58u8] + p5 + seq![58u8] + p6, seq![46u8]);
    lemma_quote_clean_concat(sign + h + seq![58u8] + p5 + seq![58u8] + p6 + seq![46u8], p7);
    assert(quote_clean(inner));
    assert(s =~= seq![SQUOTE] + inner + seq![SQUOTE]);
    assert(s.skip(1) =~= inner + seq![SQUOTE]);
    lemma_keeps_quoted_clean(s, 1, inner);
    assert(s[0] == SQUOTE && s.last() == SQUOTE);
    lemma_one_statement_quoted(s);
}

} // verus!
