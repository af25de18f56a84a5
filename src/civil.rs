use vstd::prelude::*;

verus! {

/// Largest year a timestamp read or handed to the engine may carry.
pub const MAX_YEAR: u64 = 200000;

/// Largest year that calendar advancing accepts as a starting point.
pub const ADVANCE_YEAR_LIMIT: u64 = 1099511627776;

/// A calendar date and time of day with no time zone attached.
#[derive(Clone, Copy, Debug, PartialEq, Eq, Structural)]
pub struct CivilDateTime {
    pub year: u64,
    pub month: u8,
    pub day: u8,
    pub hour: u8,
    pub minute: u8,
    pub second: u8,
}

pub open spec fn is_leap_spec(year: int) -> bool {
    year % 4 == 0 && (year % 100 != 0 || year % 400 == 0)
}

pub open spec fn days_in_month_spec(year: int, month: int) -> int {
    if month == 2 {
        if is_leap_spec(year) { 29 } else { 28 }
    } else if month == 4 || month == 6 || month == 9 || month == 11 {
        30
    } else {
        31
    }
}

/// Calendar fields in range; the year is not bounded here.
pub open spec fn fields_ok(d: CivilDateTime) -> bool {
    &&& 1 <= d.month <= 12
    &&& 1 <= d.day <= days_in_month_spec(d.year as int, d.month as int)
    &&& d.hour < 24
    &&& d.minute < 60
    &&& d.second < 60
}

impl CivilDateTime {
    /// A well-formed timestamp: calendar fields in range and year at most `MAX_YEAR`.
    pub open spec fn wf(&self) -> bool {
        fields_ok(*self) && self.year <= MAX_YEAR
    }
}

/// Chronological order: lexicographic on (year, month, day, hour, minute, second).
pub open spec fn before(a: CivilDateTime, b: CivilDateTime) -> bool {
    if a.year != b.year {
        a.year < b.year
    } else if a.month != b.month {
        a.month < b.month
    } else if a.day != b.day {
        a.day < b.day
    } else if a.hour != b.hour {
        a.hour < b.hour
    } else if a.minute != b.minute {
        a.minute < b.minute
    } else {
        a.second < b.second
    }
}

pub open spec fn not_after(a: CivilDateTime, b: CivilDateTime) -> bool {
    before(a, b) || a == b
}

pub fn is_leap_year(year: u64) -> (r: bool)
    ensures
        r == is_leap_spec(year as int),
{
    year % 4 == 0 && (year % 100 != 0 || year % 400 == 0)
}

pub fn days_in_month(year: u64, month: u8) -> (r: u8)
    ensures
        r as int == days_in_month_spec(year as int, month as int),
{
    if month == 2 {
        if is_leap_year(year) { 29 } else { 28 }
    } else if month == 4 || month == 6 || month == 9 || month == 11 {
        30
    } else {
        31
    }
}

/// Strict chronological comparison.
pub fn is_before(a: &CivilDateTime, b: &CivilDateTime) -> (r: bool)
    ensures
        r == before(*a, *b),
{
    if a.year != b.year {
        a.year < b.year
    } else if a.month != b.month {
        a.month < b.month
    } else if a.day != b.day {
        a.day < b.day
    } else if a.hour != b.hour {
        a.hour < b.hour
    } else if a.minute != b.minute {
        a.minute < b.minute
    } else {
        a.second < b.second
    }
}

/// A calendar period: a number of days or a number of calendar months.
#[derive(Clone, Copy, Debug, PartialEq, Eq, Structural)]
pub enum Period {
    Days(u32),
    Months(u32),
}

/// The day after `d`, keeping the time of day.
pub open spec fn next_day_spec(d: CivilDateTime) -> CivilDateTime {
    if (d.day as int) < days_in_month_spec(d.year as int, d.month as int) {
        CivilDateTime { day: (d.day + 1) as u8, ..d }
    } else if d.month < 12 {
        CivilDateTime { month: (d.month + 1) as u8, day: 1, ..d }
    } else {
        CivilDateTime { year: (d.year + 1) as u64, month: 1, day: 1, ..d }
    }
}

pub open spec fn add_days_spec(d: CivilDateTime, n: nat) -> CivilDateTime
    decreases n,
{
    if n == 0 {
        d
    } else {
        add_days_spec(next_day_spec(d), (n - 1) as nat)
    }
}

/// `n` calendar months after `d`; the day of month is clamped to the length of
/// the month reached (January 31st plus one month is the last day of February).
pub open spec fn add_months_spec(d: CivilDateTime, n: nat) -> CivilDateTime {
    let total = d.year * 12 + (d.month - 1) + n;
    let y = total / 12;
    let m = total % 12 + 1;
    let dim = days_in_month_spec(y, m);
    CivilDateTime {
        year: y as u64,
        month: m as u8,
        day: (if (d.day as int) <= dim { d.day as int } else { dim }) as u8,
        ..d
    }
}

pub open spec fn advance_spec(d: CivilDateTime, p: Period) -> CivilDateTime {
    match p {
        Period::Days(n) => add_days_spec(d, n as nat),
        Period::Months(n) => add_months_spec(d, n as nat),
    }
}

proof fn lemma_add_days_step(d: CivilDateTime, k: nat)
    ensures
        add_days_spec(d, k + 1) == next_day_spec(add_days_spec(d, k)),
    decreases k,
{
    if k > 0 {
        lemma_add_days_step(next_day_spec(d), (k - 1) as nat);
        assert(add_days_spec(d, k) == add_days_spec(next_day_spec(d), (k - 1) as nat));
        assert(add_days_spec(d, k + 1) == add_days_spec(next_day_spec(d), k));
    } else {
        assert(add_days_spec(next_day_spec(d), 0) == next_day_spec(d));
    }
}

fn next_day(d: CivilDateTime) -> (r: CivilDateTime)
    requires
        fields_ok(d),
        d.year < u64::MAX,
    ensures
        r == next_day_spec(d),
        fields_ok(r),
        r.year <= d.year + 1,
{
    let dim = days_in_month(d.year, d.month);
    if d.day < dim {
        CivilDateTime { day: d.day + 1, ..d }
    } else if d.month < 12 {
        CivilDateTime { month: d.month + 1, day: 1, ..d }
    } else {
        CivilDateTime { year: d.year + 1, month: 1, day: 1, ..d }
    }
}

/// Moves `d` forward by the calendar period `p`.
pub fn advance(d: CivilDateTime, p: Period) -> (r: CivilDateTime)
    requires
        fields_ok(d),
        d.year <= ADVANCE_YEAR_LIMIT,
    ensures
        r == advance_spec(d, p),
        fields_ok(r),
        d.year <= r.year,
        r.year <= d.year + match p {
            Period::Days(n) => n as int,
            Period::Months(n) => n as int,
        },
{
    match p {
        Period::Days(n) => {
            let mut cur = d;
            let mut k: u32 = 0;
            while k < n
                invariant
                    k <= n,
                    cur == add_days_spec(d, k as nat),
                    fields_ok(cur),
                    d.year <= cur.year <= d.year + k,
                    d.year <= ADVANCE_YEAR_LIMIT,
                decreases n - k,
            {
                proof {
                    lemma_add_days_step(d, k as nat);
                }
                cur = next_day(cur);
                k = k + 1;
            }
            cur
        },
        Period::Months(n) => {
            let total: u64 = d.year * 12 + (d.month - 1) as u64 + n as u64;
            let y: u64 = total / 12;
            let m: u8 = (total % 12 + 1) as u8;
            let dim = days_in_month(y, m);
            let day = if d.day <= dim { d.day } else { dim };
            CivilDateTime { year: y, month: m, day, ..d }
        },
    }
}

/// Start of the calendar day of `d`.
pub open spec fn start_of_day(d: CivilDateTime) -> CivilDateTime {
    CivilDateTime { hour: 0, minute: 0, second: 0, ..d }
}

/// Start of the calendar month of `d`.
pub open spec fn start_of_month(d: CivilDateTime) -> CivilDateTime {
    CivilDateTime { day: 1, hour: 0, minute: 0, second: 0, ..d }
}

/// Truncates `d` to the start of the calendar unit that `p` counts in.
pub open spec fn truncate_spec(d: CivilDateTime, p: Period) -> CivilDateTime {
    match p {
        Period::Days(_) => start_of_day(d),
        Period::Months(_) => start_of_month(d),
    }
}

pub fn truncate(d: CivilDateTime, p: Period) -> (r: CivilDateTime)
    ensures
        r == truncate_spec(d, p),
{
    match p {
        Period::Days(_) => CivilDateTime { hour: 0, minute: 0, second: 0, ..d },
        Period::Months(_) => CivilDateTime { day: 1, hour: 0, minute: 0, second: 0, ..d },
    }
}

} // verus!
