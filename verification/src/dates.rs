//! Calendar dates.
//!
//! A due date is stored in one canonical textual form, `DD-MM-YYYY`, and
//! compared as a (year, month, day) triple. User input may arrive under an
//! arbitrary format string from the store's configuration; only that parse
//! is delegated to an outside crate, behind a trusted wrapper. Everything
//! on canonical strings — rendering, checking, reading back — is verified
//! here.

use vstd::prelude::*;
use vstd::string::StrSliceExecFns;
use vstd::string::StringExecFns;
use chrono::Datelike;
use crate::num::digit_char;
use crate::num::digit_val;
use crate::num::digit_val_exec;
use crate::num::digit_str;
use crate::num::is_digit_char;
use crate::num::is_digit_exec;

verus! {

/// A calendar date held as plain values, the library's own shape for what
/// an outside date type carries.
pub struct PlainDate {
    pub year: i32,
    pub month: u8,
    pub day: u8,
}

/// Lexicographic order on (year, month, day): `a` on or before `b`.
pub open spec fn date_le(a: (int, int, int), b: (int, int, int)) -> bool {
    a.0 < b.0 || (a.0 == b.0 && (a.1 < b.1 || (a.1 == b.1 && a.2 <= b.2)))
}

/// The canonical storage form of a date: `DD-MM-YYYY`, all zero padded.
pub open spec fn canonical_of(y: int, m: int, d: int) -> Seq<char> {
    seq![
        digit_char(d / 10),
        digit_char(d % 10),
        '-',
        digit_char(m / 10),
        digit_char(m % 10),
        '-',
        digit_char(y / 1000),
        digit_char((y / 100) % 10),
        digit_char((y / 10) % 10),
        digit_char(y % 10),
    ]
}

pub open spec fn canonical_day(s: Seq<char>) -> int {
    digit_val(s[0]) * 10 + digit_val(s[1])
}

pub open spec fn canonical_month(s: Seq<char>) -> int {
    digit_val(s[3]) * 10 + digit_val(s[4])
}

pub open spec fn canonical_year(s: Seq<char>) -> int {
    digit_val(s[6]) * 1000 + digit_val(s[7]) * 100 + digit_val(s[8]) * 10 + digit_val(s[9])
}

pub open spec fn is_canonical_date(s: Seq<char>) -> bool {
    &&& s.len() == 10
    &&& is_digit_char(s[0])
    &&& is_digit_char(s[1])
    &&& s[2] == '-'
    &&& is_digit_char(s[3])
    &&& is_digit_char(s[4])
    &&& s[5] == '-'
    &&& is_digit_char(s[6])
    &&& is_digit_char(s[7])
    &&& is_digit_char(s[8])
    &&& is_digit_char(s[9])
    &&& 1 <= canonical_month(s) <= 12
    &&& 1 <= canonical_day(s) <= 31
}

/// The (year, month, day) a canonical string denotes.
pub open spec fn canonical_ymd(s: Seq<char>) -> (int, int, int) {
    (canonical_year(s), canonical_month(s), canonical_day(s))
}

/// Rendering a date canonically and reading it back is the identity.
pub proof fn lemma_canonical_round(y: int, m: int, d: int)
    requires
        0 <= y <= 9999,
        1 <= m <= 12,
        1 <= d <= 31,
    ensures
        is_canonical_date(canonical_of(y, m, d)),
        canonical_ymd(canonical_of(y, m, d)) == (y, m, d),
{
    let s = canonical_of(y, m, d);
    assert(0 <= d / 10 < 10 && 0 <= d % 10 < 10 && 0 <= m / 10 < 10 && 0 <= m % 10 < 10);
    assert(0 <= y / 1000 < 10 && 0 <= (y / 100) % 10 < 10 && 0 <= (y / 10) % 10 < 10
        && 0 <= y % 10 < 10);
    assert((d / 10) * 10 + d % 10 == d) by (nonlinear_arith)
        requires 1 <= d <= 31;
    assert((m / 10) * 10 + m % 10 == m) by (nonlinear_arith)
        requires 1 <= m <= 12;
    assert((y / 1000) * 1000 + ((y / 100) % 10) * 100 + ((y / 10) % 10) * 10 + y % 10 == y)
        by (nonlinear_arith)
        requires 0 <= y <= 9999;
}

/// Renders a date in the canonical storage form.
pub fn format_canonical(pd: &PlainDate) -> (r: String)
    requires
        0 <= pd.year <= 9999,
        1 <= pd.month <= 12,
        1 <= pd.day <= 31,
    ensures
        r@ == canonical_of(pd.year as int, pd.month as int, pd.day as int),
{
    let y = pd.year as usize;
    let m = pd.month as usize;
    let d = pd.day as usize;
    let mut s = String::from_str(digit_str(d / 10));
    s.append(digit_str(d % 10));
    s.append("-");
    s.append(digit_str(m / 10));
    s.append(digit_str(m % 10));
    s.append("-");
    s.append(digit_str(y / 1000));
    s.append(digit_str((y / 100) % 10));
    s.append(digit_str((y / 10) % 10));
    s.append(digit_str(y % 10));
    proof {
        reveal_strlit("-");
        assert(s@ =~= canonical_of(pd.year as int, pd.month as int, pd.day as int));
    }
    s
}

/// Checks whether a string is a canonical date.
pub fn check_canonical(s: &str) -> (r: bool)
    ensures
        r == is_canonical_date(s@),
{
    let n = s.unicode_len();
    if n != 10 {
        return false;
    }
    let c0 = s.get_char(0);
    let c1 = s.get_char(1);
    let c2 = s.get_char(2);
    let c3 = s.get_char(3);
    let c4 = s.get_char(4);
    let c5 = s.get_char(5);
    let c6 = s.get_char(6);
    let c7 = s.get_char(7);
    let c8 = s.get_char(8);
    let c9 = s.get_char(9);
    proof {
        reveal_strlit("-");
    }
    if !(is_digit_exec(c0) && is_digit_exec(c1) && c2 == '-' && is_digit_exec(c3)
        && is_digit_exec(c4) && c5 == '-' && is_digit_exec(c6) && is_digit_exec(c7)
        && is_digit_exec(c8) && is_digit_exec(c9)) {
        return false;
    }
    let month = digit_val_exec(c3) * 10 + digit_val_exec(c4);
    let day = digit_val_exec(c0) * 10 + digit_val_exec(c1);
    1 <= month && month <= 12 && 1 <= day && day <= 31
}

/// Reads the (year, month, day) out of a canonical date string.
pub fn read_canonical(s: &str) -> (r: (i32, u8, u8))
    requires
        is_canonical_date(s@),
    ensures
        (r.0 as int, r.1 as int, r.2 as int) == canonical_ymd(s@),
{
    let day = digit_val_exec(s.get_char(0)) * 10 + digit_val_exec(s.get_char(1));
    let month = digit_val_exec(s.get_char(3)) * 10 + digit_val_exec(s.get_char(4));
    let year = digit_val_exec(s.get_char(6)) * 1000 + digit_val_exec(s.get_char(7)) * 100
        + digit_val_exec(s.get_char(8)) * 10 + digit_val_exec(s.get_char(9));
    (year as i32, month as u8, day as u8)
}

/// What `chrono` reads out of a date string under a format string: a
/// function of the two strings alone.
pub uninterp spec fn chrono_date_of(s: Seq<char>, fmt: Seq<char>) -> Option<(int, int, int)>;

/// Relies on `chrono::NaiveDate::parse_from_str` and the `Datelike`
/// accessors: the parse is a function of the text and the format alone, and
/// a `NaiveDate` is a real calendar date, so its month is in 1..=12 and its
/// day in 1..=31.
#[verifier::external_body]
pub fn chrono_parse_date(s: &str, fmt: &str) -> (r: Option<(i32, u32, u32)>)
    ensures
        r matches Some(t) ==> chrono_date_of(s@, fmt@) == Some(
            (t.0 as int, t.1 as int, t.2 as int),
        ) && 1 <= t.1 <= 12 && 1 <= t.2 <= 31,
        r is None ==> chrono_date_of(s@, fmt@) is None,
{
    match chrono::NaiveDate::parse_from_str(s, fmt) {
        Ok(d) => Some((d.year(), d.month(), d.day())),
        Err(_) => None,
    }
}

/// Relies on `chrono::Local::now` and `date_naive` for today's date; of the
/// result only what holds of any `NaiveDate`: month in 1..=12, day in 1..=31.
#[verifier::external_body]
pub fn local_today() -> (r: (i32, u32, u32))
    ensures
        1 <= r.1 <= 12 && 1 <= r.2 <= 31,
{
    let d = chrono::Local::now().date_naive();
    (d.year(), d.month(), d.day())
}

/// Relies on `chrono::Local::now` and its formatter for the creation and
/// update timestamps; the result depends on the clock, so nothing is
/// assumed of it.
#[verifier::external_body]
pub fn local_now_string() -> String {
    chrono::Local::now().format("%d-%m-%Y %H:%M:%S").to_string()
}

} // verus!
