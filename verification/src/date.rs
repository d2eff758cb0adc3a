//! Calendar dates in the proleptic Gregorian calendar, modelled by their
//! year/month/day fields together with a linear day index used by all
//! range and chunking reasoning.

use vstd::arithmetic::div_mod::{lemma_fundamental_div_mod, lemma_fundamental_div_mod_converse};
use vstd::prelude::*;

verus! {

/// A calendar date. Valid dates (see [`Date::is_valid`]) range from
/// 0001-01-01 to 9999-12-31.
#[derive(Debug, Clone, Copy, PartialEq, Eq, Structural, Hash)]
pub struct Date {
    pub year: u32,
    pub month: u32,
    pub day: u32,
}

/// Day of the week; the durable store keeps one per record as a derived
/// convenience column.
#[derive(Debug, Clone, Copy, PartialEq, Eq, Structural, Hash)]
pub enum Weekday {
    Monday,
    Tuesday,
    Wednesday,
    Thursday,
    Friday,
    Saturday,
    Sunday,
}

/// A year is a leap year iff it is divisible by 4 but not by 100, or
/// divisible by 400.
pub open spec fn is_leap_year(y: int) -> bool {
    (y % 4 == 0 && y % 100 != 0) || y % 400 == 0
}

/// Number of days in the given month of the given year.
#[verifier::opaque]
pub open spec fn spec_days_in_month(y: int, m: int) -> int {
    if m == 2 {
        if is_leap_year(y) {
            29
        } else {
            28
        }
    } else if m == 4 || m == 6 || m == 9 || m == 11 {
        30
    } else {
        31
    }
}

/// Number of days in the months of year `y` strictly before month `m`.
#[verifier::opaque]
pub open spec fn spec_days_before_month(y: int, m: int) -> int {
    let base: int = if m == 1 {
        0
    } else if m == 2 {
        31
    } else if m == 3 {
        59
    } else if m == 4 {
        90
    } else if m == 5 {
        120
    } else if m == 6 {
        151
    } else if m == 7 {
        181
    } else if m == 8 {
        212
    } else if m == 9 {
        243
    } else if m == 10 {
        273
    } else if m == 11 {
        304
    } else {
        334
    };
    base + if m > 2 && is_leap_year(y) {
        1int
    } else {
        0int
    }
}

/// Number of leap years in `1..y`, i.e. strictly before year `y`.
#[verifier::opaque]
pub open spec fn leap_days_before(y: int) -> int {
    (y - 1) / 4 - (y - 1) / 100 + (y - 1) / 400
}

impl Date {
    /// A date is valid if its month exists and its day exists in that
    /// month, within the supported year range.
    pub open spec fn is_valid(self) -> bool {
        &&& 1 <= self.year <= 9999
        &&& 1 <= self.month <= 12
        &&& 1 <= self.day <= spec_days_in_month(self.year as int, self.month as int)
    }

    /// Zero-based position of this date on the linear day axis:
    /// 0001-01-01 has index 0 and each following day adds one.
    pub open spec fn day_index(self) -> int {
        365 * (self.year - 1) + leap_days_before(self.year as int) + spec_days_before_month(
            self.year as int,
            self.month as int,
        ) + self.day - 1
    }

    /// The last supported date, 9999-12-31.
    pub open spec fn spec_max() -> Date {
        Date { year: 9999, month: 12, day: 31 }
    }

    /// The calendar successor of a valid, non-maximal date.
    pub open spec fn spec_next(self) -> Date {
        if self.day < spec_days_in_month(self.year as int, self.month as int) {
            Date { year: self.year, month: self.month, day: (self.day + 1) as u32 }
        } else if self.month < 12 {
            Date { year: self.year, month: (self.month + 1) as u32, day: 1 }
        } else {
            Date { year: (self.year + 1) as u32, month: 1, day: 1 }
        }
    }
}

/// How `y / d` changes when `y - 1` grows to `y`: the quotient steps up
/// exactly at the multiples of `d`.
proof fn lemma_div_step(y: int, d: int)
    requires
        1 <= y,
        1 <= d,
    ensures
        y / d == (y - 1) / d + if y % d == 0 {
            1int
        } else {
            0int
        },
{
    let q = (y - 1) / d;
    let r = (y - 1) % d;
    lemma_fundamental_div_mod(y - 1, d);
    if r + 1 < d {
        lemma_fundamental_div_mod_converse(y, d, q, r + 1);
    } else {
        assert(r + 1 == d);
        assert((q + 1) * d == q * d + d) by (nonlinear_arith);
        lemma_fundamental_div_mod_converse(y, d, q + 1, 0);
    }
}

/// If `y` is a multiple of `b * c`, it is a multiple of `c`.
proof fn lemma_mod_factor(y: int, b: int, c: int)
    requires
        1 <= y,
        1 <= b,
        1 <= c,
        y % (b * c) == 0,
    ensures
        y % c == 0,
{
    assert(1 <= b * c) by (nonlinear_arith)
        requires
            1 <= b,
            1 <= c,
    ;
    lemma_fundamental_div_mod(y, b * c);
    assert(y == (b * c) * (y / (b * c)));
    let q = b * (y / (b * c));
    assert(c * q == y) by (nonlinear_arith)
        requires
            y == (b * c) * (y / (b * c)),
            q == b * (y / (b * c)),
    ;
    lemma_fundamental_div_mod_converse(y, c, q, 0);
}

/// Crossing from year `y` to year `y + 1` adds one leap day exactly when
/// `y` itself is a leap year.
proof fn lemma_leap_days_step(y: int)
    requires
        1 <= y,
    ensures
        leap_days_before(y + 1) == leap_days_before(y) + if is_leap_year(y) {
            1int
        } else {
            0int
        },
{
    reveal(leap_days_before);
    lemma_div_step(y, 4);
    lemma_div_step(y, 100);
    lemma_div_step(y, 400);
    if y % 400 == 0 {
        lemma_mod_factor(y, 4, 100);
        lemma_mod_factor(y, 100, 4);
    }
    if y % 100 == 0 {
        lemma_mod_factor(y, 25, 4);
    }
}

/// Day indices within year `y` occupy exactly the year's slice of the
/// day axis.
proof fn lemma_day_index_year_bounds(d: Date)
    requires
        d.is_valid(),
    ensures
        365 * (d.year - 1) + leap_days_before(d.year as int) <= d.day_index(),
        d.day_index() < 365 * (d.year - 1) + leap_days_before(d.year as int) + 365 + if is_leap_year(
            d.year as int,
        ) {
            1int
        } else {
            0int
        },
{
    reveal(spec_days_in_month);
    reveal(spec_days_before_month);
}

/// More leap days lie before a later year.
proof fn lemma_leap_days_monotone(y1: int, y2: int)
    requires
        1 <= y1 <= y2,
    ensures
        leap_days_before(y1) <= leap_days_before(y2),
    decreases y2 - y1,
{
    if y1 < y2 {
        lemma_leap_days_step(y2 - 1);
        lemma_leap_days_monotone(y1, y2 - 1);
    }
}

/// Every day of an earlier year precedes every day of a later year on
/// the day axis.
proof fn lemma_year_order(d1: Date, d2: Date)
    requires
        d1.is_valid(),
        d2.is_valid(),
        d1.year < d2.year,
    ensures
        d1.day_index() < d2.day_index(),
{
    lemma_day_index_year_bounds(d1);
    lemma_day_index_year_bounds(d2);
    lemma_leap_days_step(d1.year as int);
    lemma_leap_days_monotone(d1.year + 1, d2.year as int);
}

/// No valid date lies beyond the last supported one on the day axis.
pub proof fn lemma_below_max(d: Date)
    requires
        d.is_valid(),
    ensures
        d.day_index() <= Date::spec_max().day_index(),
        d != Date::spec_max() ==> d.day_index() < Date::spec_max().day_index(),
{
    reveal(spec_days_in_month);
    reveal(spec_days_before_month);
    if d.year < 9999 {
        lemma_year_order(d, Date::spec_max());
    }
    if d != Date::spec_max() && d.day_index() == Date::spec_max().day_index() {
        lemma_day_index_injective(d, Date::spec_max());
    }
}

/// The day index determines the date: no two valid dates share an
/// index.
pub proof fn lemma_day_index_injective(d1: Date, d2: Date)
    requires
        d1.is_valid(),
        d2.is_valid(),
        d1.day_index() == d2.day_index(),
    ensures
        d1 == d2,
{
    reveal(spec_days_in_month);
    reveal(spec_days_before_month);
    if d1.year < d2.year {
        lemma_year_order(d1, d2);
    } else if d2.year < d1.year {
        lemma_year_order(d2, d1);
    }
}

/// The successor of a valid, non-maximal date is valid and sits one
/// step further along the day axis.
pub proof fn lemma_next_day_index(d: Date)
    requires
        d.is_valid(),
        d != Date::spec_max(),
    ensures
        d.spec_next().is_valid(),
        d.spec_next().day_index() == d.day_index() + 1,
{
    reveal(spec_days_in_month);
    reveal(spec_days_before_month);
    let n = d.spec_next();
    if d.day < spec_days_in_month(d.year as int, d.month as int) {
    } else if d.month < 12 {
    } else {
        assert(d.month == 12 && d.day == 31);
        assert(d.year < 9999);
        lemma_leap_days_step(d.year as int);
    }
}

/// Number of days in the given month.
pub fn days_in_month(year: u32, month: u32) -> (n: u32)
    requires
        1 <= month <= 12,
    ensures
        n == spec_days_in_month(year as int, month as int),
{
    proof {
        reveal(spec_days_in_month);
    }
    if month == 2 {
        if (year % 4 == 0 && year % 100 != 0) || year % 400 == 0 {
            29
        } else {
            28
        }
    } else if month == 4 || month == 6 || month == 9 || month == 11 {
        30
    } else {
        31
    }
}

impl Date {
    /// Whether the given fields form a valid calendar date; the checked
    /// entry point for callers that receive untrusted fields.
    pub fn valid_ymd(year: u32, month: u32, day: u32) -> (ok: bool)
        ensures
            ok == (Date { year, month, day }).is_valid(),
    {
        1 <= year && year <= 9999 && 1 <= month && month <= 12 && 1 <= day && day <= days_in_month(
            year,
            month,
        )
    }

    /// Build the date with the given fields, which must form a valid date.
    pub fn from_ymd(year: u32, month: u32, day: u32) -> (d: Date)
        requires
            (Date { year, month, day }).is_valid(),
        ensures
            d == (Date { year, month, day }),
            d.is_valid(),
    {
        Date { year, month, day }
    }

    /// The last supported date.
    pub fn max_date() -> (d: Date)
        ensures
            d == Date::spec_max(),
            d.is_valid(),
    {
        proof {
            reveal(spec_days_in_month);
        }
        Date { year: 9999, month: 12, day: 31 }
    }

    /// This date's position on the day axis, as a machine integer.
    pub fn day_number(&self) -> (n: u32)
        requires
            self.is_valid(),
        ensures
            n == self.day_index(),
    {
        proof {
            reveal(leap_days_before);
            reveal(spec_days_in_month);
            reveal(spec_days_before_month);
        }
        let y = self.year - 1;
        let leap: u32 = y / 4 - y / 100 + y / 400;
        let before: u32 = month_offset(self.year, self.month);
        365 * y + leap + before + self.day - 1
    }

    /// The day after this one.
    pub fn next_day(&self) -> (r: Date)
        requires
            self.is_valid(),
            *self != Date::spec_max(),
        ensures
            r == self.spec_next(),
            r.is_valid(),
            r.day_index() == self.day_index() + 1,
    {
        proof {
            reveal(spec_days_in_month);
            lemma_next_day_index(*self);
        }
        let dim = days_in_month(self.year, self.month);
        if self.day < dim {
            Date { year: self.year, month: self.month, day: self.day + 1 }
        } else if self.month < 12 {
            Date { year: self.year, month: self.month + 1, day: 1 }
        } else {
            Date { year: self.year + 1, month: 1, day: 1 }
        }
    }

    /// Whether this date is on or before `other` on the day axis.
    pub fn on_or_before(&self, other: &Date) -> (r: bool)
        requires
            self.is_valid(),
            other.is_valid(),
        ensures
            r == (self.day_index() <= other.day_index()),
    {
        self.day_number() <= other.day_number()
    }

    /// Whether this date is strictly before `other` on the day axis.
    pub fn before(&self, other: &Date) -> (r: bool)
        requires
            self.is_valid(),
            other.is_valid(),
        ensures
            r == (self.day_index() < other.day_index()),
    {
        self.day_number() < other.day_number()
    }

    /// The day of the week this date falls on.
    #[verifier::opaque]
    pub open spec fn spec_weekday(self) -> Weekday {
        let w = self.day_index() % 7;
        if w == 0 {
            Weekday::Monday
        } else if w == 1 {
            Weekday::Tuesday
        } else if w == 2 {
            Weekday::Wednesday
        } else if w == 3 {
            Weekday::Thursday
        } else if w == 4 {
            Weekday::Friday
        } else if w == 5 {
            Weekday::Saturday
        } else {
            Weekday::Sunday
        }
    }

    /// The day of the week this date falls on; 0001-01-01 was a Monday.
    pub fn weekday(&self) -> (w: Weekday)
        requires
            self.is_valid(),
        ensures
            w == self.spec_weekday(),
    {
        proof {
            reveal(Date::spec_weekday);
        }
        let n = self.day_number() % 7;
        if n == 0 {
            Weekday::Monday
        } else if n == 1 {
            Weekday::Tuesday
        } else if n == 2 {
            Weekday::Wednesday
        } else if n == 3 {
            Weekday::Thursday
        } else if n == 4 {
            Weekday::Friday
        } else if n == 5 {
            Weekday::Saturday
        } else {
            Weekday::Sunday
        }
    }
}

/// Cumulative days before the given month, as a machine integer.
fn month_offset(year: u32, month: u32) -> (n: u32)
    requires
        1 <= month <= 12,
    ensures
        n == spec_days_before_month(year as int, month as int),
{
    proof {
        reveal(spec_days_before_month);
    }
    let leap: bool = (year % 4 == 0 && year % 100 != 0) || year % 400 == 0;
    let base: u32 = if month == 1 {
        0
    } else if month == 2 {
        31
    } else if month == 3 {
        59
    } else if month == 4 {
        90
    } else if month == 5 {
        120
    } else if month == 6 {
        151
    } else if month == 7 {
        181
    } else if month == 8 {
        212
    } else if month == 9 {
        243
    } else if month == 10 {
        273
    } else if month == 11 {
        304
    } else {
        334
    };
    if month > 2 && leap {
        base + 1
    } else {
        base
    }
}

} // verus!
