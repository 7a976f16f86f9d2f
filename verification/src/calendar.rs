//! Proleptic-Gregorian calendar arithmetic for the multi-month
//! registration path: parsing a start date, stepping day by day in the
//! model, and finding the month a run of days ends in.

use vstd::prelude::*;

use chrono::Datelike;

verus! {

/// The smallest year a date may carry (the bound chrono's dates cover).
pub const MIN_DATE_YEAR: i32 = -262143;

/// The largest year a date may carry (the bound chrono's dates cover).
pub const MAX_DATE_YEAR: i32 = 262142;

/// Proleptic-Gregorian leap year.
pub open spec fn is_leap_year(y: int) -> bool {
    (y % 4 == 0 && y % 100 != 0) || y % 400 == 0
}

/// Days in a month.
pub open spec fn days_in_month(y: int, m: int) -> int
    recommends
        1 <= m <= 12,
{
    if m == 2 {
        if is_leap_year(y) {
            29
        } else {
            28
        }
    } else if m == 4 || m == 6 || m == 9 || m == 11 {
        30
    } else {
        31
    }
}

/// A calendar date within the supported year range.
pub open spec fn valid_date(y: int, m: int, d: int) -> bool {
    &&& MIN_DATE_YEAR <= y <= MAX_DATE_YEAR
    &&& 1 <= m <= 12
    &&& 1 <= d <= days_in_month(y, m)
}

/// The day after a date; years grow without bound in the model.
pub open spec fn next_day(y: int, m: int, d: int) -> (int, int, int) {
    if d < days_in_month(y, m) {
        (y, m, d + 1)
    } else if m < 12 {
        (y, m + 1, 1)
    } else {
        (y + 1, 1, 1)
    }
}

/// The date `n` days after a date.
pub open spec fn date_plus(y: int, m: int, d: int, n: nat) -> (int, int, int)
    decreases n,
{
    if n == 0 {
        (y, m, d)
    } else {
        let t = next_day(y, m, d);
        date_plus(t.0, t.1, t.2, (n - 1) as nat)
    }
}

/// Stepping preserves month and day validity, and never lowers the year.
pub proof fn lemma_date_plus_wf(y: int, m: int, d: int, n: nat)
    requires
        1 <= m <= 12,
        1 <= d <= days_in_month(y, m),
    ensures
        1 <= date_plus(y, m, d, n).1 <= 12,
        1 <= date_plus(y, m, d, n).2 <= days_in_month(date_plus(y, m, d, n).0, date_plus(y, m, d, n).1),
        date_plus(y, m, d, n).0 >= y,
    decreases n,
{
    if n > 0 {
        let t = next_day(y, m, d);
        lemma_date_plus_wf(t.0, t.1, t.2, (n - 1) as nat);
    }
}

/// Days that stay inside the month just move the day of month.
pub proof fn lemma_date_plus_same_month(y: int, m: int, d: int, n: nat)
    requires
        1 <= m <= 12,
        1 <= d,
        d + n <= days_in_month(y, m),
    ensures
        date_plus(y, m, d, n) == (y, m, d + n),
    decreases n,
{
    if n > 0 {
        lemma_date_plus_same_month(y, m, d + 1, (n - 1) as nat);
    }
}

/// The first day of the month after `(y, m)`.
pub open spec fn next_month(y: int, m: int) -> (int, int) {
    if m < 12 {
        (y, m + 1)
    } else {
        (y + 1, 1)
    }
}

/// Days that leave the month can be counted from the next month's first
/// day instead.
pub proof fn lemma_date_plus_skip_month(y: int, m: int, d: int, n: nat)
    requires
        1 <= m <= 12,
        1 <= d <= days_in_month(y, m),
        n >= days_in_month(y, m) - d + 1,
    ensures
        date_plus(y, m, d, n) == date_plus(
            next_month(y, m).0,
            next_month(y, m).1,
            1,
            (n - (days_in_month(y, m) - d + 1)) as nat,
        ),
    decreases days_in_month(y, m) - d,
{
    if d < days_in_month(y, m) {
        lemma_date_plus_skip_month(y, m, d + 1, (n - 1) as nat);
    }
}

/// The month a date lands in never moves backward as days are added.
pub proof fn lemma_date_plus_months_le(y: int, m: int, d: int, n: nat)
    requires
        1 <= m <= 12,
        1 <= d <= days_in_month(y, m),
    ensures
        date_plus(y, m, d, n).0 > y || (date_plus(y, m, d, n).0 == y && date_plus(y, m, d, n).1
            >= m),
    decreases n,
{
    if n > 0 {
        let t = next_day(y, m, d);
        lemma_date_plus_months_le(t.0, t.1, t.2, (n - 1) as nat);
    }
}

/// Days in a month, computed.
pub fn days_in_month_of(y: i32, m: u32) -> (r: u32)
    requires
        0 <= y,
        1 <= m <= 12,
    ensures
        r == days_in_month(y as int, m as int),
{
    if m == 2 {
        if (y % 4 == 0 && y % 100 != 0) || y % 400 == 0 {
            29
        } else {
            28
        }
    } else if m == 4 || m == 6 || m == 9 || m == 11 {
        30
    } else {
        31
    }
}

/// The year and month that the day `extra` days after `(y0, m0, d0)`
/// falls in, or `None` when that day lies past the supported year range.
pub fn end_month(y0: i32, m0: u32, d0: u32, extra: u32) -> (r: Option<(i32, u32)>)
    requires
        valid_date(y0 as int, m0 as int, d0 as int),
        0 <= y0,
    ensures
        ({
            let end = date_plus(y0 as int, m0 as int, d0 as int, extra as nat);
            match r {
                Some(em) => em.0 == end.0 && em.1 == end.1 && em.0 <= MAX_DATE_YEAR,
                None => end.0 > MAX_DATE_YEAR,
            }
        }),
{
    let ghost end = date_plus(y0 as int, m0 as int, d0 as int, extra as nat);
    let mut y = y0;
    let mut m = m0;
    let mut d = d0;
    let mut rem = extra;
    loop
        invariant
            valid_date(y as int, m as int, d as int),
            0 <= y0 <= y,
            end == date_plus(y0 as int, m0 as int, d0 as int, extra as nat),
            end == date_plus(y as int, m as int, d as int, rem as nat),
        decreases rem,
    {
        let dim = days_in_month_of(y, m);
        if rem <= dim - d {
            proof {
                lemma_date_plus_same_month(y as int, m as int, d as int, rem as nat);
            }
            return Some((y, m));
        }
        proof {
            lemma_date_plus_skip_month(y as int, m as int, d as int, rem as nat);
            lemma_date_plus_wf(
                next_month(y as int, m as int).0,
                next_month(y as int, m as int).1,
                1,
                (rem - (dim - d + 1)) as nat,
            );
        }
        rem = rem - (dim - d + 1);
        d = 1;
        if m == 12 {
            if y >= MAX_DATE_YEAR {
                return None;
            }
            y = y + 1;
            m = 1;
        } else {
            m = m + 1;
        }
    }
}

/// What `NaiveDate::parse_from_str` with format `%Y-%m-%d` makes of a
/// text: year, month and day; a function of the text alone.
pub uninterp spec fn parsed_date(s: Seq<char>) -> Option<(i32, u32, u32)>;

/// Parses a calendar date written as `YYYY-MM-DD`.
///
/// Relies on `chrono::NaiveDate::parse_from_str` with format `%Y-%m-%d`:
/// the outcome depends on the text alone, and a date it accepts is a
/// valid proleptic-Gregorian date within chrono's supported year range.
#[verifier::external_body]
pub(crate) fn parse_date(s: &str) -> (r: Option<(i32, u32, u32)>)
    ensures
        r == parsed_date(s@),
        r matches Some(pd) ==> valid_date(pd.0 as int, pd.1 as int, pd.2 as int),
{
    match chrono::NaiveDate::parse_from_str(s, "%Y-%m-%d") {
        Ok(date) => Some((date.year(), date.month(), date.day())),
        Err(_) => None,
    }
}

} // verus!
