//! The pagination bar of the result grid: page arithmetic and the HTML
//! fragment built from it.

use vstd::prelude::*;

verus! {

/// The character for one decimal digit.
pub open spec fn digit_char(d: int) -> char
    recommends
        0 <= d <= 9,
{
    if d == 0 {
        '0'
    } else if d == 1 {
        '1'
    } else if d == 2 {
        '2'
    } else if d == 3 {
        '3'
    } else if d == 4 {
        '4'
    } else if d == 5 {
        '5'
    } else if d == 6 {
        '6'
    } else if d == 7 {
        '7'
    } else if d == 8 {
        '8'
    } else {
        '9'
    }
}

/// The decimal digits of `n` as characters, most significant first.
pub open spec fn dec_chars(n: nat) -> Seq<char>
    decreases n,
{
    if n < 10 {
        seq![digit_char(n as int)]
    } else {
        dec_chars(n / 10).push(digit_char((n % 10) as int))
    }
}

/// The decimal rendering of a signed number as characters.
pub open spec fn dec_chars_signed(v: int) -> Seq<char> {
    if v < 0 {
        seq!['-'] + dec_chars((-v) as nat)
    } else {
        dec_chars(v as nat)
    }
}

/// The two decimal renderings of the library agree: the characters
/// printed here are exactly the bytes the value codec emits.
pub proof fn lemma_dec_chars_matches_dec_digits(n: nat)
    ensures
        dec_chars(n) == crate::numeral::dec_digits(n).map_values(|b: u8| b as char),
    decreases n,
{
    let d = crate::numeral::dec_digits(n);
    if n < 10 {
        assert(dec_chars(n) =~= d.map_values(|b: u8| b as char));
    } else {
        lemma_dec_chars_matches_dec_digits(n / 10);
        assert(d == crate::numeral::dec_digits(n / 10).push((48 + n % 10) as u8));
        assert(d.map_values(|b: u8| b as char) =~= crate::numeral::dec_digits(n / 10).map_values(
            |b: u8| b as char,
        ).push(((48 + n % 10) as u8) as char));
        assert(dec_chars(n) =~= d.map_values(|b: u8| b as char));
    }
}

/// The one-character text of a decimal digit.
fn digit_str(d: u64) -> (r: &'static str)
    requires
        d <= 9,
    ensures
        r@ == seq![digit_char(d as int)],
{
    let r = if d == 0 {
        "0"
    } else if d == 1 {
        "1"
    } else if d == 2 {
        "2"
    } else if d == 3 {
        "3"
    } else if d == 4 {
        "4"
    } else if d == 5 {
        "5"
    } else if d == 6 {
        "6"
    } else if d == 7 {
        "7"
    } else if d == 8 {
        "8"
    } else {
        "9"
    };
    proof {
        reveal_strlit("0");
        reveal_strlit("1");
        reveal_strlit("2");
        reveal_strlit("3");
        reveal_strlit("4");
        reveal_strlit("5");
        reveal_strlit("6");
        reveal_strlit("7");
        reveal_strlit("8");
        reveal_strlit("9");
        assert(r@ =~= seq![digit_char(d as int)]);
    }
    r
}

/// Renders `n` in decimal as text.
pub fn u64_to_string(n: u64) -> (r: String)
    ensures
        r@ == dec_chars(n as nat),
    decreases n,
{
    if n < 10 {
        let r = digit_str(n).to_owned();
        proof {
            assert(r@ =~= dec_chars(n as nat));
        }
        r
    } else {
        let mut r = u64_to_string(n / 10);
        r.append(digit_str(n % 10));
        proof {
            assert(r@ =~= dec_chars(n as nat));
        }
        r
    }
}

/// Appends the decimal rendering of the difference `a - b`, which may
/// be negative, to the text.
fn append_signed_diff(s: &mut String, a: u64, b: u64)
    ensures
        final(s)@ == old(s)@ + dec_chars_signed(a - b),
{
    if a >= b {
        let num = u64_to_string(a - b);
        s.append(num.as_str());
    } else {
        proof {
            reveal_strlit("-");
        }
        s.append("-");
        let num = u64_to_string(b - a);
        s.append(num.as_str());
        proof {
            assert(seq!['-'] + dec_chars((b - a) as nat) =~= ("-")@ + dec_chars((b - a) as nat));
            assert(final(s)@ =~= old(s)@ + dec_chars_signed(a - b));
        }
    }
}

/// How many pages a row count fills at a given page size: the row count
/// divided by the page size, rounded up, and never less than one.
pub open spec fn spec_total_pages(total: nat, limit: nat) -> nat
    recommends
        limit >= 1,
{
    if total == 0 {
        1
    } else {
        (total - 1) as nat / limit + 1
    }
}

/// Computes the page count for a row count and page size.
pub fn page_count(total: u64, limit: u32) -> (r: u64)
    requires
        limit >= 1,
    ensures
        r == spec_total_pages(total as nat, limit as nat),
        r >= 1,
{
    if total == 0 {
        1
    } else {
        (total - 1) / (limit as u64) + 1
    }
}

/// The pagination bar for one page of a browsed table, character for
/// character: the page position line, then first/previous/current/next/
/// last controls. The jump targets are offsets relative to the current
/// page, and the backward controls are disabled on the first page, the
/// forward ones on the last.
pub open spec fn spec_pagination_html(page: nat, total: nat, limit: nat) -> Seq<char>
    recommends
        limit >= 1,
{
    let tp = spec_total_pages(total, limit);
    let dis_prev = if page <= 1 {
        ("disabled")@
    } else {
        ("")@
    };
    let dis_next = if page >= tp {
        ("disabled")@
    } else {
        ("")@
    };
    (
    "\n        <div class=\"flex items-center gap-2 p-2 px-4 bg-black/10 border-b border-white/5\">\n            <span class=\"text-[11px] opacity-60 mr-4\">Showing page <b>")@
        + dec_chars(page) + ("</b> of <b>")@ + dec_chars(tp) + ("</b> (")@ + dec_chars(total) + (
    " total rows)</span>\n            \n            <button class=\"icon-btn-sm\" title=\"First\" onclick=\"document.dispatchEvent(new CustomEvent('browse:page', {detail: ")@
        + dec_chars_signed(1 - page) + ("}));\" ")@ + dis_prev + (
    ">\n                <i data-lucide=\"chevrons-left\"></i>\n            </button>\n            <button class=\"icon-btn-sm\" title=\"Prev\" onclick=\"document.dispatchEvent(new CustomEvent('browse:page', {detail: ")@
        + dec_chars_signed(-1) + ("}));\" ")@ + dis_prev + (
    ">\n                <i data-lucide=\"chevron-left\"></i>\n            </button>\n            \n            <span class=\"mx-2 text-xs font-mono opacity-80 bg-white/5 px-2 py-1 rounded\">")@
        + dec_chars(page) + (
    "</span>\n            \n            <button class=\"icon-btn-sm\" title=\"Next\" onclick=\"document.dispatchEvent(new CustomEvent('browse:page', {detail: ")@
        + dec_chars(1) + ("}));\" ")@ + dis_next + (
    ">\n                <i data-lucide=\"chevron-right\"></i>\n            </button>\n            <button class=\"icon-btn-sm\" title=\"Last\" onclick=\"document.dispatchEvent(new CustomEvent('browse:page', {detail: ")@
        + dec_chars_signed(tp - page) + ("}));\" ")@ + dis_next + (
    ">\n                <i data-lucide=\"chevrons-right\"></i>\n            </button>\n        </div>\n    ")@
}

/// Renders the pagination bar of the result grid for the given page,
/// total row count and page size.
#[verifier::rlimit(50)]
pub fn render_pagination_html(page: u32, total: u64, limit: u32) -> (r: String)
    requires
        limit >= 1,
    ensures
        r@ == spec_pagination_html(page as nat, total as nat, limit as nat),
{
    let tp = page_count(total, limit);
    let prev_disabled = if page <= 1 {
        "disabled"
    } else {
        ""
    };
    let next_disabled = if page as u64 >= tp {
        "disabled"
    } else {
        ""
    };
    let mut r = String::new();
    r.append(
        "\n        <div class=\"flex items-center gap-2 p-2 px-4 bg-black/10 border-b border-white/5\">\n            <span class=\"text-[11px] opacity-60 mr-4\">Showing page <b>",
    );
    let num = u64_to_string(page as u64);
    r.append(num.as_str());
    r.append("</b> of <b>");
    let num = u64_to_string(tp);
    r.append(num.as_str());
    r.append("</b> (");
    let num = u64_to_string(total);
    r.append(num.as_str());
    r.append(
        " total rows)</span>\n            \n            <button class=\"icon-btn-sm\" title=\"First\" onclick=\"document.dispatchEvent(new CustomEvent('browse:page', {detail: ",
    );
    append_signed_diff(&mut r, 1, page as u64);
    r.append("}));\" ");
    r.append(prev_disabled);
    r.append(
        ">\n                <i data-lucide=\"chevrons-left\"></i>\n            </button>\n            <button class=\"icon-btn-sm\" title=\"Prev\" onclick=\"document.dispatchEvent(new CustomEvent('browse:page', {detail: ",
    );
    append_signed_diff(&mut r, 0, 1);
    r.append("}));\" ");
    r.append(prev_disabled);
    r.append(
        ">\n                <i data-lucide=\"chevron-left\"></i>\n            </button>\n            \n            <span class=\"mx-2 text-xs font-mono opacity-80 bg-white/5 px-2 py-1 rounded\">",
    );
    let num = u64_to_string(page as u64);
    r.append(num.as_str());
    r.append(
        "</span>\n            \n            <button class=\"icon-btn-sm\" title=\"Next\" onclick=\"document.dispatchEvent(new CustomEvent('browse:page', {detail: ",
    );
    let num = u64_to_string(1);
    r.append(num.as_str());
    r.append("}));\" ");
    r.append(next_disabled);
    r.append(
        ">\n                <i data-lucide=\"chevron-right\"></i>\n            </button>\n            <button class=\"icon-btn-sm\" title=\"Last\" onclick=\"document.dispatchEvent(new CustomEvent('browse:page', {detail: ",
    );
    append_signed_diff(&mut r, tp, page as u64);
    r.append("}));\" ");
    r.append(next_disabled);
    r.append(
        ">\n                <i data-lucide=\"chevrons-right\"></i>\n            </button>\n        </div>\n    ",
    );
    proof {
        assert(dec_chars_signed(0 - 1) == dec_chars_signed(-1));
        assert(r@ =~= spec_pagination_html(page as nat, total as nat, limit as nat));
    }
    r
}

} // verus!
