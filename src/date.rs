use vstd::prelude::*;

verus! {

/// Earliest year that the date library represents.
pub const MIN_YEAR: i32 = -9999;

/// Latest year that the date library represents.
pub const MAX_YEAR: i32 = 9999;

/// A calendar date in the proleptic Gregorian calendar.
#[derive(Clone, Copy, Debug, PartialEq, Eq, Structural)]
pub struct CivilDate {
    pub year: i32,
    pub month: u8,
    pub day: u8,
}

/// A wall-clock time in the display timezone: a date and the seconds since its midnight.
#[derive(Clone, Copy, Debug, PartialEq, Eq, Structural)]
pub struct DateTime {
    pub date: CivilDate,
    pub second: u32,
}

pub open spec fn is_leap_year(y: int) -> bool {
    (y % 4 == 0 && y % 100 != 0) || y % 400 == 0
}

pub open spec fn days_in_month(y: int, m: int) -> int {
    if m == 2 {
        if is_leap_year(y) { 29 } else { 28 }
    } else if m == 4 || m == 6 || m == 9 || m == 11 {
        30
    } else {
        31
    }
}

pub open spec fn valid_date(d: CivilDate) -> bool {
    MIN_YEAR <= d.year <= MAX_YEAR && 1 <= d.month <= 12 && 1 <= d.day <= days_in_month(
        d.year as int,
        d.month as int,
    )
}

pub open spec fn valid_time(t: DateTime) -> bool {
    valid_date(t.date) && t.second < 86400
}

/// The Julian day number of a date: days counted from 24 November 4714 BC.
#[verifier::opaque]
pub open spec fn julian_day_of(y: int, m: int, d: int) -> int {
    let a = if m <= 2 { y - 1 } else { y };
    let mm = if m <= 2 { m + 9 } else { m - 3 };
    365 * a + a / 4 - a / 100 + a / 400 + (153 * mm + 2) / 5 + d - 1 + 1721120
}

pub open spec fn jd(d: CivilDate) -> int {
    julian_day_of(d.year as int, d.month as int, d.day as int)
}

pub open spec fn min_jd() -> int {
    julian_day_of(MIN_YEAR as int, 1, 1)
}

pub open spec fn max_jd() -> int {
    julian_day_of(MAX_YEAR as int, 12, 31)
}

/// The first and last Julian days that the date library represents.
pub proof fn lemma_jd_bounds()
    ensures
        min_jd() == -1930999,
        max_jd() == 5373484,
{
    reveal(julian_day_of);
}

/// A point in time as seconds on the Julian day scale.
pub open spec fn instant(t: DateTime) -> int {
    jd(t.date) * 86400 + t.second
}

/// Day of the week counted from Sunday (0) to Saturday (6).
pub open spec fn weekday_from_sunday(d: CivilDate) -> int {
    (jd(d) + 1) % 7
}

/// The Monday that opens ISO week 1 of year `y`: the Monday on or before 4 January.
pub open spec fn iso_week_start(y: int) -> int {
    let jan4 = julian_day_of(y, 1, 4);
    jan4 - jan4 % 7
}

pub open spec fn iso_weeks_in_year(y: int) -> int {
    (iso_week_start(y + 1) - iso_week_start(y)) / 7
}

/// The ISO-8601 week number of a date.
pub open spec fn iso_week_of(d: CivilDate) -> int {
    let j = jd(d);
    let y = d.year as int;
    if j >= iso_week_start(y + 1) {
        1
    } else if j >= iso_week_start(y) {
        (j - iso_week_start(y)) / 7 + 1
    } else {
        (j - iso_week_start(y - 1)) / 7 + 1
    }
}

/// The Sunday that closes ISO week `w` of year `y`.
pub open spec fn iso_week_sunday_jd(y: int, w: int) -> int {
    iso_week_start(y) + 7 * (w - 1) + 6
}

/// Relies on time::Date::from_calendar_date and Date::to_julian_day: the Julian day of a date.
#[verifier::external_body]
pub(crate) fn julian_day(d: CivilDate) -> (r: i32)
    requires
        valid_date(d),
    ensures
        r == jd(d),
        min_jd() <= r <= max_jd(),
{
    let month = time::Month::try_from(d.month).unwrap();
    time::Date::from_calendar_date(d.year, month, d.day).unwrap().to_julian_day()
}

/// Relies on time::Date::from_julian_day: the date of a Julian day, when it is in range.
#[verifier::external_body]
pub(crate) fn date_from_julian_day(j: i32) -> (r: Option<CivilDate>)
    ensures
        r.is_some() <==> min_jd() <= j <= max_jd(),
        r matches Some(d) ==> valid_date(d) && jd(d) == j,
{
    match time::Date::from_julian_day(j) {
        Ok(d) => Some(CivilDate { year: d.year(), month: d.month() as u8, day: d.day() }),
        Err(_) => None,
    }
}

/// Relies on time::Date::iso_week: the ISO-8601 week number of a date.
#[verifier::external_body]
pub(crate) fn iso_week(d: CivilDate) -> (r: u8)
    requires
        valid_date(d),
    ensures
        r == iso_week_of(d),
        1 <= r <= 53,
{
    let month = time::Month::try_from(d.month).unwrap();
    time::Date::from_calendar_date(d.year, month, d.day).unwrap().iso_week()
}

/// Relies on time::Date::from_iso_week_date with Weekday::Sunday: the last day of an ISO week.
#[verifier::external_body]
pub(crate) fn iso_week_sunday(year: i32, week: u8) -> (r: Option<CivilDate>)
    ensures
        r.is_some() <==> (MIN_YEAR <= year <= MAX_YEAR && 1 <= week <= iso_weeks_in_year(
            year as int,
        ) && iso_week_sunday_jd(year as int, week as int) <= max_jd()),
        r matches Some(d) ==> valid_date(d) && jd(d) == iso_week_sunday_jd(year as int, week as int),
{
    match time::Date::from_iso_week_date(year, week, time::Weekday::Sunday) {
        Ok(d) => Some(CivilDate { year: d.year(), month: d.month() as u8, day: d.day() }),
        Err(_) => None,
    }
}

/// Day of the week of a date, counted from Sunday.
pub fn weekday(d: CivilDate) -> (r: u8)
    requires
        valid_date(d),
    ensures
        r == weekday_from_sunday(d),
        r < 7,
{
    let j = julian_day(d);
    proof {
        lemma_jd_bounds();
    }
    // shifted by whole weeks so that the remainder is taken of a non-negative value
    let shifted: i32 = j + 1 + 7 * 300000;
    assert((shifted as int) % 7 == (jd(d) + 1) % 7) by {
        assert(shifted as int == (jd(d) + 1) + 7 * 300000);
    }
    (shifted % 7) as u8
}

/// The seconds of a valid time on the Julian day scale.
pub fn instant_of(t: DateTime) -> (r: i64)
    requires
        valid_time(t),
    ensures
        r == instant(t),
{
    let j = julian_day(t.date);
    proof {
        lemma_jd_bounds();
    }
    (j as i64) * 86400 + (t.second as i64)
}

/// Whether `a` is not later than `b`.
pub fn not_after(a: DateTime, b: DateTime) -> (r: bool)
    requires
        valid_time(a),
        valid_time(b),
    ensures
        r == (instant(a) <= instant(b)),
{
    instant_of(a) <= instant_of(b)
}

} // verus!
