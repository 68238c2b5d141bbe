//! Calendar months of instants, through chrono.

use chrono::Datelike;
use vstd::prelude::*;

verus! {

/// The UTC calendar year and month of an instant in milliseconds since the
/// Unix epoch, or `None` where chrono cannot represent the instant.
pub uninterp spec fn calendar_month(ms: i64) -> Option<(i32, u32)>;

/// The RFC 3339 text of an instant in milliseconds since the Unix epoch, or
/// `None` where chrono cannot represent the instant.
pub uninterp spec fn rfc3339_text(ms: i64) -> Option<Seq<char>>;

/// Relies on chrono's `DateTime::from_timestamp_millis`, then
/// `Datelike::year` and `Datelike::month`: the year and month of the UTC
/// date, with months numbered 1 to 12.
#[verifier::external_body]
pub(crate) fn month_of_instant(ms: i64) -> (r: Option<(i32, u32)>)
    ensures
        r == calendar_month(ms),
        r matches Some(ym) ==> 1 <= ym.1 <= 12,
{
    match chrono::DateTime::from_timestamp_millis(ms) {
        Some(d) => Some((d.year(), d.month())),
        None => None,
    }
}

/// Relies on chrono's `DateTime::from_timestamp_millis`, then
/// `DateTime::to_rfc3339`: the instant written in RFC 3339 form.
#[verifier::external_body]
pub(crate) fn iso_of_instant(ms: i64) -> (r: Option<String>)
    ensures
        match r {
            Some(s) => rfc3339_text(ms) == Some(s@),
            None => rfc3339_text(ms) is None,
        },
{
    match chrono::DateTime::from_timestamp_millis(ms) {
        Some(d) => Some(d.to_rfc3339()),
        None => None,
    }
}

/// A running count of months: twelve per year.
pub open spec fn month_number(ym: (i32, u32)) -> int {
    ym.0 as int * 12 + ym.1 as int
}

/// The calendar month before `ym`, as a year and a month; January wraps to
/// December of the year before.
pub open spec fn previous_month(ym: (i32, u32)) -> (int, int) {
    if ym.1 == 1 {
        (ym.0 as int - 1, 12)
    } else {
        (ym.0 as int, ym.1 as int - 1)
    }
}

/// English short name of month `m` (1 to 12).
pub open spec fn month_abbrev(m: int) -> Seq<char> {
    if m == 1 {
        "Jan"@
    } else if m == 2 {
        "Feb"@
    } else if m == 3 {
        "Mar"@
    } else if m == 4 {
        "Apr"@
    } else if m == 5 {
        "May"@
    } else if m == 6 {
        "Jun"@
    } else if m == 7 {
        "Jul"@
    } else if m == 8 {
        "Aug"@
    } else if m == 9 {
        "Sep"@
    } else if m == 10 {
        "Oct"@
    } else if m == 11 {
        "Nov"@
    } else {
        "Dec"@
    }
}

/// English short name of month `m` (1 to 12).
pub fn month_short_name(m: u32) -> (r: &'static str)
    requires
        1 <= m <= 12,
    ensures
        r@ == month_abbrev(m as int),
{
    if m == 1 {
        "Jan"
    } else if m == 2 {
        "Feb"
    } else if m == 3 {
        "Mar"
    } else if m == 4 {
        "Apr"
    } else if m == 5 {
        "May"
    } else if m == 6 {
        "Jun"
    } else if m == 7 {
        "Jul"
    } else if m == 8 {
        "Aug"
    } else if m == 9 {
        "Sep"
    } else if m == 10 {
        "Oct"
    } else if m == 11 {
        "Nov"
    } else {
        "Dec"
    }
}

/// The month `back` months before month `m` (both 1 to 12 and `back` below 12).
pub open spec fn month_back(m: int, back: int) -> int {
    (m - 1 - back + 12) % 12 + 1
}

/// Short names of the six months that end with `now`'s month, oldest first.
pub fn trailing_month_labels(now: (i32, u32)) -> (r: Vec<String>)
    requires
        1 <= now.1 <= 12,
    ensures
        r@.len() == 6,
        forall|b: int| 0 <= b < 6 ==> r@[b]@ == month_abbrev(month_back(now.1 as int, 5 - b)),
{
    let mut r: Vec<String> = Vec::new();
    let mut b: u32 = 0;
    while b < 6
        invariant
            b <= 6,
            1 <= now.1 <= 12,
            r@.len() == b,
            forall|c: int| 0 <= c < b ==> r@[c]@ == month_abbrev(month_back(now.1 as int, 5 - c)),
        decreases 6 - b,
    {
        let m = (now.1 + 12 - 1 - (5 - b)) % 12 + 1;
        r.push(String::from_str(month_short_name(m)));
        b = b + 1;
    }
    r
}

} // verus!
