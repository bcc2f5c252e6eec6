//! Verified calendar arithmetic on plain (year, month, day) values:
//! day numbers for the chart's x axis and day stepping for axis labels.

use vstd::prelude::*;
use crate::model::Timestamp;

verus! {

/// A calendar date, truncated to day resolution.
#[derive(Clone, Copy, PartialEq, Eq, Structural, Debug)]
pub struct Date {
    pub year: u32,
    pub month: u32,
    pub day: u32,
}

pub open spec fn is_leap_year(y: int) -> bool {
    y % 4 == 0 && (y % 100 != 0 || y % 400 == 0)
}

pub open spec fn days_in_month(y: int, m: int) -> int {
    if m == 2 {
        if is_leap_year(y) {
            29
        } else {
            28
        }
    } else if m == 4 || m == 6 || m == 9 || m == 11 {
        30
    } else {
        31
    }
}

/// A month/day pair that exists in the given year's calendar (any year).
pub open spec fn proper_date(y: int, m: int, d: int) -> bool {
    &&& 1 <= m <= 12
    &&& 1 <= d <= days_in_month(y, m)
}

impl Date {
    /// Well-formed: a real calendar date within the library's year range.
    pub open spec fn wf(self) -> bool {
        &&& self.year <= 9999
        &&& proper_date(self.year as int, self.month as int, self.day as int)
    }

    /// A real calendar date, with no bound on the year (reached by stepping
    /// past the well-formed range when adding day offsets).
    pub open spec fn proper(self) -> bool {
        proper_date(self.year as int, self.month as int, self.day as int)
    }
}

impl Timestamp {
    /// The timestamp's calendar date.
    pub fn date(&self) -> (r: Date)
        ensures
            r == self.date_spec(),
    {
        Date { year: self.year, month: self.month, day: self.day }
    }

    pub open spec fn date_spec(self) -> Date {
        Date { year: self.year, month: self.month, day: self.day }
    }
}

/// The serial day number of a proleptic Gregorian date, shifted so that it
/// is non-negative over the library's whole year range.  Consecutive dates
/// have consecutive day numbers, so differences of day numbers are exact
/// day distances.
pub open spec fn day_number_spec(y: int, m: int, d: int) -> int {
    let yy = if m <= 2 {
        y + 399
    } else {
        y + 400
    };
    let era = yy / 400;
    let yoe = yy % 400;
    let mp = if m > 2 {
        m - 3
    } else {
        m + 9
    };
    let doy = (153 * mp + 2) / 5 + d - 1;
    era * 146097 + yoe * 365 + yoe / 4 - yoe / 100 + doy
}

pub open spec fn day_number_of(d: Date) -> int {
    day_number_spec(d.year as int, d.month as int, d.day as int)
}

/// Day numbers of well-formed dates stay far below this bound.
pub const DAY_NUMBER_MAX: i64 = 4_000_000;

/// The serial day number of a well-formed date.
pub fn day_number(d: &Date) -> (r: i64)
    requires
        d.wf(),
    ensures
        r == day_number_of(*d),
        0 <= r < DAY_NUMBER_MAX,
{
    let yy: u64 = if d.month <= 2 {
        d.year as u64 + 399
    } else {
        d.year as u64 + 400
    };
    let era: u64 = yy / 400;
    let yoe: u64 = yy % 400;
    let mp: u64 = if d.month > 2 {
        d.month as u64 - 3
    } else {
        d.month as u64 + 9
    };
    let doy: u64 = (153 * mp + 2) / 5 + d.day as u64 - 1;
    assert(yoe < 400);
    assert(yoe / 100 < 4);
    assert(era * 146097 + yoe * 365 + yoe / 4 + doy >= yoe / 100) by {
        if yoe >= 1 {
            assert(yoe * 365 >= 365);
        } else {
            assert(yoe / 100 == 0);
        }
    }
    let n: u64 = era * 146097 + yoe * 365 + yoe / 4 - yoe / 100 + doy;
    n as i64
}

/// The number of days of the given month in the given year.
pub fn days_in_month_x(y: u32, m: u32) -> (r: u32)
    requires
        1 <= m <= 12,
    ensures
        r == days_in_month(y as int, m as int),
{
    if m == 2 {
        if (y % 4 == 0 && y % 100 != 0) || y % 400 == 0 {
            29
        } else {
            28
        }
    } else if m == 4 || m == 6 || m == 9 || m == 11 {
        30
    } else {
        31
    }
}

/// The calendar day after the given one.
pub open spec fn next_day_spec(d: Date) -> Date {
    if (d.day as int) < days_in_month(d.year as int, d.month as int) {
        Date { year: d.year, month: d.month, day: (d.day + 1) as u32 }
    } else if d.month < 12 {
        Date { year: d.year, month: (d.month + 1) as u32, day: 1 }
    } else {
        Date { year: (d.year + 1) as u32, month: 1, day: 1 }
    }
}

/// The date `n` days after `d`.
pub open spec fn add_days_spec(d: Date, n: nat) -> Date
    decreases n,
{
    if n == 0 {
        d
    } else {
        next_day_spec(add_days_spec(d, (n - 1) as nat))
    }
}

fn next_day(d: Date) -> (r: Date)
    requires
        d.proper(),
        d.year < 0xffff_fff0,
    ensures
        r == next_day_spec(d),
        r.proper(),
        r.year <= d.year + 1,
{
    let dim: u32 = if d.month == 2 {
        if (d.year % 4 == 0 && d.year % 100 != 0) || d.year % 400 == 0 {
            29
        } else {
            28
        }
    } else if d.month == 4 || d.month == 6 || d.month == 9 || d.month == 11 {
        30
    } else {
        31
    };
    assert(dim == days_in_month(d.year as int, d.month as int));
    if d.day < dim {
        Date { year: d.year, month: d.month, day: d.day + 1 }
    } else if d.month < 12 {
        Date { year: d.year, month: d.month + 1, day: 1 }
    } else {
        Date { year: d.year + 1, month: 1, day: 1 }
    }
}

/// The date `n` days after `start`: the inverse step of the day-offset axis
/// mapping, used to label axis positions with their calendar dates.
pub fn add_days(start: Date, n: i64) -> (r: Date)
    requires
        start.wf(),
        0 <= n <= DAY_NUMBER_MAX,
    ensures
        r == add_days_spec(start, n as nat),
        r.proper(),
{
    let mut cur: Date = start;
    let mut i: i64 = 0;
    while i < n
        invariant
            0 <= i <= n <= DAY_NUMBER_MAX,
            start.wf(),
            cur == add_days_spec(start, i as nat),
            cur.proper(),
            cur.year <= start.year + i,
        decreases n - i,
    {
        cur = next_day(cur);
        i = i + 1;
    }
    cur
}

/// Day numbers count days: stepping one calendar day forward raises the
/// day number by exactly one, leap years and month lengths included — so
/// differences of day numbers are true day distances.
pub proof fn lemma_day_number_steps(d: Date)
    requires
        d.proper(),
        d.year <= 20000,
    ensures
        day_number_of(next_day_spec(d)) == day_number_of(d) + 1,
{
    let y = d.year as int;
    let m = d.month as int;
    let day = d.day as int;
    if day < days_in_month(y, m) {
        // Same month: only the day-of-year term moves.
    } else if m == 2 {
        // February to March: the shifted year advances here, so the era
        // and year-of-era terms absorb the leap-day bookkeeping.
        let a = y + 399;
        let era = a / 400;
        let yoe = a % 400;
        vstd::arithmetic::div_mod::lemma_fundamental_div_mod(a, 400);
        vstd::arithmetic::div_mod::lemma_mod_division_less_than_divisor(a, 400);
        if yoe == 399 {
            assert(y % 400 == 0) by (nonlinear_arith)
                requires
                    a == 400 * era + 399,
                    a == y + 399,
            ;
            assert((a + 1) / 400 == era + 1 && (a + 1) % 400 == 0) by (nonlinear_arith)
                requires
                    a == 400 * era + 399,
            ;
            assert(is_leap_year(y));
        } else {
            assert((a + 1) / 400 == era && (a + 1) % 400 == yoe + 1) by (nonlinear_arith)
                requires
                    a == 400 * era + yoe,
                    0 <= yoe < 399,
            ;
            assert(y % 4 == (yoe + 1) % 4) by (nonlinear_arith)
                requires
                    y == 400 * era + yoe - 399,
            ;
            assert(y % 100 == (yoe + 1) % 100) by (nonlinear_arith)
                requires
                    y == 400 * era + yoe - 399,
            ;
            assert(y % 400 != 0) by (nonlinear_arith)
                requires
                    y == 400 * era + yoe - 399,
                    0 <= yoe < 399,
            ;
            let b = yoe + 1;
            vstd::arithmetic::div_mod::lemma_fundamental_div_mod(b, 4);
            vstd::arithmetic::div_mod::lemma_mod_division_less_than_divisor(b, 4);
            vstd::arithmetic::div_mod::lemma_fundamental_div_mod(yoe, 4);
            vstd::arithmetic::div_mod::lemma_mod_division_less_than_divisor(yoe, 4);
            vstd::arithmetic::div_mod::lemma_fundamental_div_mod(b, 100);
            vstd::arithmetic::div_mod::lemma_mod_division_less_than_divisor(b, 100);
            vstd::arithmetic::div_mod::lemma_fundamental_div_mod(yoe, 100);
            vstd::arithmetic::div_mod::lemma_mod_division_less_than_divisor(yoe, 100);
            assert(b / 4 == yoe / 4 + (if b % 4 == 0 { 1int } else { 0int })) by (nonlinear_arith)
                requires
                    b == yoe + 1,
                    b == 4 * (b / 4) + b % 4,
                    yoe == 4 * (yoe / 4) + yoe % 4,
                    0 <= b % 4 < 4,
                    0 <= yoe % 4 < 4,
            ;
            assert(b / 100 == yoe / 100 + (if b % 100 == 0 { 1int } else { 0int }))
                by (nonlinear_arith)
                requires
                    b == yoe + 1,
                    b == 100 * (b / 100) + b % 100,
                    yoe == 100 * (yoe / 100) + yoe % 100,
                    0 <= b % 100 < 100,
                    0 <= yoe % 100 < 100,
            ;
        }
    } else {
        // Any other month rollover keeps the shifted year, so only the
        // day-of-year term moves; December flows into the next January
        // before the shifted year advances in March.
    }
}

/// Walking `n` days forward moves the day number forward by exactly `n`:
/// the axis mapping and the label dates agree.
pub proof fn lemma_add_days_day_number(d: Date, n: nat)
    requires
        d.proper(),
        d.year + n <= 20000,
    ensures
        add_days_spec(d, n).proper(),
        add_days_spec(d, n).year <= d.year + n,
        day_number_of(add_days_spec(d, n)) == day_number_of(d) + n,
    decreases n,
{
    if n > 0 {
        lemma_add_days_day_number(d, (n - 1) as nat);
        lemma_day_number_steps(add_days_spec(d, (n - 1) as nat));
    }
}

/// The day-offset of a timestamp relative to a series' start date: the
/// universal x-axis unit of every chart.
pub fn to_duration(timestamp: &Timestamp, start_date: &Date) -> (r: i64)
    requires
        timestamp.wf(),
        start_date.wf(),
    ensures
        r == day_number_of(timestamp.date_spec()) - day_number_of(*start_date),
        -DAY_NUMBER_MAX < r < DAY_NUMBER_MAX,
{
    day_number(&timestamp.date()) - day_number(start_date)
}

/// The axis-label text of a date: `day.month.` with no year and no leading
/// zeros.
pub open spec fn date_label(d: Date) -> Seq<char> {
    crate::numfmt::dec_string(d.day as int) + seq!['.'] + crate::numfmt::dec_string(
        d.month as int,
    ) + seq!['.']
}

/// Renders the axis label of the date reached by walking `duration` days
/// forward from the series' start date.
pub fn format_duration_as_date(duration: i64, start_date: &Date) -> (r: String)
    requires
        start_date.wf(),
        0 <= duration <= DAY_NUMBER_MAX,
    ensures
        r@ == date_label(add_days_spec(*start_date, duration as nat)),
{
    let d = add_days(*start_date, duration);
    let mut s = crate::numfmt::u64_to_string(d.day as u64);
    proof {
        reveal_strlit(".");
    }
    s.append(".");
    s.append(crate::numfmt::u64_to_string(d.month as u64).as_str());
    s.append(".");
    proof {
        assert(s@ =~= date_label(add_days_spec(*start_date, duration as nat)));
    }
    s
}

} // verus!
