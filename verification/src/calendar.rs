//! Calendar model for the working-date rule and the date texts that the
//! sources use.
//!
//! The surrounding application supplies the wall-clock timestamp (year,
//! month, day, weekday, time of day); this module holds the pure rules on
//! it: the 16:30 cutover, the weekend skip, and the date formats that the
//! extractors match against.

use vstd::prelude::*;

verus! {

/// Day of the week.
#[derive(PartialEq, Eq, Structural, Clone, Copy, Debug)]
pub enum Weekday {
    Mon,
    Tue,
    Wed,
    Thu,
    Fri,
    Sat,
    Sun,
}

/// A calendar date, proleptic Gregorian.
#[derive(PartialEq, Eq, Structural, Clone, Copy, Debug)]
pub struct WorkingDate {
    pub year: u16,
    pub month: u8,
    pub day: u8,
}

/// A local timestamp: a date, its day of the week, and the time of day.
#[derive(PartialEq, Eq, Structural, Clone, Copy, Debug)]
pub struct WorkingDateTime {
    pub date: WorkingDate,
    pub weekday: Weekday,
    pub hour: u8,
    pub minute: u8,
}

pub open spec fn is_leap_year(y: int) -> bool {
    (y % 4 == 0 && y % 100 != 0) || y % 400 == 0
}

pub open spec fn days_in_month(y: int, m: int) -> int {
    if m == 2 {
        if is_leap_year(y) {
            29
        } else {
            28
        }
    } else if m == 4 || m == 6 || m == 9 || m == 11 {
        30
    } else {
        31
    }
}

/// A well-formed date with a four-digit year.
pub open spec fn date_wf(d: WorkingDate) -> bool {
    &&& 1000 <= d.year <= 9999
    &&& 1 <= d.month <= 12
    &&& 1 <= d.day <= days_in_month(d.year as int, d.month as int)
}

pub open spec fn datetime_wf(dt: WorkingDateTime) -> bool {
    &&& date_wf(dt.date)
    &&& dt.hour < 24
    &&& dt.minute < 60
}

/// The calendar day after `d`.
pub open spec fn next_date(d: WorkingDate) -> WorkingDate {
    if d.day < days_in_month(d.year as int, d.month as int) {
        WorkingDate { year: d.year, month: d.month, day: (d.day + 1) as u8 }
    } else if d.month < 12 {
        WorkingDate { year: d.year, month: (d.month + 1) as u8, day: 1 }
    } else {
        WorkingDate { year: (d.year + 1) as u16, month: 1, day: 1 }
    }
}

pub open spec fn next_weekday(w: Weekday) -> Weekday {
    match w {
        Weekday::Mon => Weekday::Tue,
        Weekday::Tue => Weekday::Wed,
        Weekday::Wed => Weekday::Thu,
        Weekday::Thu => Weekday::Fri,
        Weekday::Fri => Weekday::Sat,
        Weekday::Sat => Weekday::Sun,
        Weekday::Sun => Weekday::Mon,
    }
}

/// `d` advanced by `n` calendar days.
pub open spec fn plus_days(d: WorkingDate, n: nat) -> WorkingDate
    decreases n,
{
    if n == 0 {
        d
    } else {
        next_date(plus_days(d, (n - 1) as nat))
    }
}

/// `w` advanced by `n` days of the week.
pub open spec fn weekday_plus(w: Weekday, n: nat) -> Weekday
    decreases n,
{
    if n == 0 {
        w
    } else {
        next_weekday(weekday_plus(w, (n - 1) as nat))
    }
}

/// The market-close cutover: at or after 16:30 the next day's table is read.
pub open spec fn after_cutover(hour: int, minute: int) -> bool {
    hour > 16 || (hour == 16 && minute >= 30)
}

/// Days skipped to leave a weekend: two from Saturday, one from Sunday.
pub open spec fn weekend_shift(w: Weekday) -> nat {
    if w == Weekday::Sat {
        2
    } else if w == Weekday::Sun {
        1
    } else {
        0
    }
}

/// The number of days the working-date rule advances `dt`.
pub open spec fn working_shift(dt: WorkingDateTime) -> nat {
    let c: nat = if after_cutover(dt.hour as int, dt.minute as int) {
        1
    } else {
        0
    };
    c + weekend_shift(weekday_plus(dt.weekday, c))
}

/// The working timestamp that `dt` resolves to: the date advances by the
/// working shift, the time of day is kept.
pub open spec fn spec_working_date_time_from(dt: WorkingDateTime) -> WorkingDateTime {
    WorkingDateTime {
        date: plus_days(dt.date, working_shift(dt)),
        weekday: weekday_plus(dt.weekday, working_shift(dt)),
        hour: dt.hour,
        minute: dt.minute,
    }
}

pub fn exec_days_in_month(year: u16, month: u8) -> (r: u8)
    ensures
        r as int == days_in_month(year as int, month as int),
{
    if month == 2 {
        if (year % 4 == 0 && year % 100 != 0) || year % 400 == 0 {
            29
        } else {
            28
        }
    } else if month == 4 || month == 6 || month == 9 || month == 11 {
        30
    } else {
        31
    }
}

/// The calendar day after `d`.
pub fn exec_next_date(d: WorkingDate) -> (r: WorkingDate)
    requires
        date_wf(d),
        d.year <= 9998 || !(d.month == 12 && d.day == 31),
    ensures
        r == next_date(d),
        date_wf(r),
{
    let dim = exec_days_in_month(d.year, d.month);
    if d.day < dim {
        WorkingDate { year: d.year, month: d.month, day: d.day + 1 }
    } else if d.month < 12 {
        WorkingDate { year: d.year, month: d.month + 1, day: 1 }
    } else {
        WorkingDate { year: d.year + 1, month: 1, day: 1 }
    }
}

/// Resolves a timestamp to the working timestamp whose table must be read:
/// at or after 16:30 the next day is taken, and a Saturday or Sunday is
/// moved past the weekend to Monday.
pub fn get_working_date_time_from(datetime: WorkingDateTime) -> (r: WorkingDateTime)
    requires
        datetime_wf(datetime),
        datetime.date.year <= 9998,
    ensures
        r == spec_working_date_time_from(datetime),
        datetime_wf(r),
{
    let mut date = datetime.date;
    let mut weekday = datetime.weekday;
    if datetime.hour > 16 || (datetime.hour == 16 && datetime.minute >= 30) {
        date = exec_next_date(date);
        weekday = match weekday {
            Weekday::Mon => Weekday::Tue,
            Weekday::Tue => Weekday::Wed,
            Weekday::Wed => Weekday::Thu,
            Weekday::Thu => Weekday::Fri,
            Weekday::Fri => Weekday::Sat,
            Weekday::Sat => Weekday::Sun,
            Weekday::Sun => Weekday::Mon,
        };
    }
    let ghost c: nat = if after_cutover(datetime.hour as int, datetime.minute as int) {
        1
    } else {
        0
    };
    proof {
        reveal_with_fuel(plus_days, 5);
        reveal_with_fuel(weekday_plus, 5);
        assert(date == plus_days(datetime.date, c));
        assert(weekday == weekday_plus(datetime.weekday, c));
    }
    match weekday {
        Weekday::Sat => {
            let d1 = exec_next_date(date);
            let d2 = exec_next_date(d1);
            proof {
                reveal_with_fuel(plus_days, 5);
                reveal_with_fuel(weekday_plus, 5);
                assert(d2 == plus_days(datetime.date, c + 2));
                assert(weekday_plus(datetime.weekday, c + 2) == Weekday::Mon);
            }
            WorkingDateTime {
                date: d2,
                weekday: Weekday::Mon,
                hour: datetime.hour,
                minute: datetime.minute,
            }
        },
        Weekday::Sun => {
            let d1 = exec_next_date(date);
            proof {
                reveal_with_fuel(plus_days, 5);
                reveal_with_fuel(weekday_plus, 5);
                assert(d1 == plus_days(datetime.date, c + 1));
                assert(weekday_plus(datetime.weekday, c + 1) == Weekday::Mon);
            }
            WorkingDateTime {
                date: d1,
                weekday: Weekday::Mon,
                hour: datetime.hour,
                minute: datetime.minute,
            }
        },
        _ => {
            WorkingDateTime { date, weekday, hour: datetime.hour, minute: datetime.minute }
        },
    }
}

/// Law: the resolved timestamp never falls on a weekend; when the date
/// after the cutover rule falls on a Saturday or a Sunday, the resolution
/// is the following Monday.
pub proof fn lemma_weekend_resolves_to_monday(dt: WorkingDateTime)
    requires
        datetime_wf(dt),
    ensures
        spec_working_date_time_from(dt).weekday != Weekday::Sat,
        spec_working_date_time_from(dt).weekday != Weekday::Sun,
        ({
            let c: nat = if after_cutover(dt.hour as int, dt.minute as int) {
                1
            } else {
                0
            };
            &&& (weekday_plus(dt.weekday, c) == Weekday::Sat ==> spec_working_date_time_from(
                dt,
            ) == (WorkingDateTime {
                date: plus_days(dt.date, (c + 2) as nat),
                weekday: Weekday::Mon,
                hour: dt.hour,
                minute: dt.minute,
            }))
            &&& (weekday_plus(dt.weekday, c) == Weekday::Sun ==> spec_working_date_time_from(
                dt,
            ) == (WorkingDateTime {
                date: plus_days(dt.date, (c + 1) as nat),
                weekday: Weekday::Mon,
                hour: dt.hour,
                minute: dt.minute,
            }))
        }),
{
    reveal_with_fuel(plus_days, 5);
    reveal_with_fuel(weekday_plus, 5);
}

/// Law: on a weekday before the 16:30 cutover the working-date rule is the
/// identity.
pub proof fn lemma_weekday_before_cutover_identity(dt: WorkingDateTime)
    requires
        datetime_wf(dt),
        !after_cutover(dt.hour as int, dt.minute as int),
        dt.weekday != Weekday::Sat,
        dt.weekday != Weekday::Sun,
    ensures
        spec_working_date_time_from(dt) == dt,
{
    reveal_with_fuel(plus_days, 5);
    reveal_with_fuel(weekday_plus, 5);
}

// ---------------------------------------------------------------------------
// Date texts
// ---------------------------------------------------------------------------

/// The English three-letter month abbreviation, as bytes.
pub open spec fn month_abbrev(m: int) -> Seq<u8> {
    if m == 1 {
        seq![74u8, 97u8, 110u8]
    } else if m == 2 {
        seq![70u8, 101u8, 98u8]
    } else if m == 3 {
        seq![77u8, 97u8, 114u8]
    } else if m == 4 {
        seq![65u8, 112u8, 114u8]
    } else if m == 5 {
        seq![77u8, 97u8, 121u8]
    } else if m == 6 {
        seq![74u8, 117u8, 110u8]
    } else if m == 7 {
        seq![74u8, 117u8, 108u8]
    } else if m == 8 {
        seq![65u8, 117u8, 103u8]
    } else if m == 9 {
        seq![83u8, 101u8, 112u8]
    } else if m == 10 {
        seq![79u8, 99u8, 116u8]
    } else if m == 11 {
        seq![78u8, 111u8, 118u8]
    } else {
        seq![68u8, 101u8, 99u8]
    }
}

/// A number below 100 as two decimal digit bytes, zero-padded.
pub open spec fn two_digits(n: int) -> Seq<u8> {
    seq![(48 + n / 10) as u8, (48 + n % 10) as u8]
}

/// A number below 10000 as four decimal digit bytes, zero-padded.
pub open spec fn four_digits(n: int) -> Seq<u8> {
    seq![
        (48 + n / 1000) as u8,
        (48 + (n / 100) % 10) as u8,
        (48 + (n / 10) % 10) as u8,
        (48 + n % 10) as u8,
    ]
}

/// The date as `DD-Mon-YY`, the header format of the table pages.
pub open spec fn fmt_date_dmy(d: WorkingDate) -> Seq<u8> {
    two_digits(d.day as int) + seq![45u8] + month_abbrev(d.month as int) + seq![45u8]
        + two_digits((d.year as int) % 100)
}

/// The date as `YYYY-MM-DD`, the key format of the compressed feed.
pub open spec fn fmt_date_ymd(d: WorkingDate) -> Seq<u8> {
    four_digits(d.year as int) + seq![45u8] + two_digits(d.month as int) + seq![45u8]
        + two_digits(d.day as int)
}

/// The date as `DD Mon`, the label format of the non-compressed feed.
pub open spec fn fmt_date_dmon(d: WorkingDate) -> Seq<u8> {
    two_digits(d.day as int) + seq![32u8] + month_abbrev(d.month as int)
}

fn push_two_digits(out: &mut Vec<u8>, n: u8)
    requires
        n < 100,
    ensures
        final(out)@ == old(out)@ + two_digits(n as int),
{
    out.push(48 + n / 10);
    out.push(48 + n % 10);
    proof {
        assert(out@ =~= old(out)@ + two_digits(n as int));
    }
}

fn push_month_abbrev(out: &mut Vec<u8>, m: u8)
    requires
        1 <= m <= 12,
    ensures
        final(out)@ == old(out)@ + month_abbrev(m as int),
{
    if m == 1 {
        out.push(74);
        out.push(97);
        out.push(110);
    } else if m == 2 {
        out.push(70);
        out.push(101);
        out.push(98);
    } else if m == 3 {
        out.push(77);
        out.push(97);
        out.push(114);
    } else if m == 4 {
        out.push(65);
        out.push(112);
        out.push(114);
    } else if m == 5 {
        out.push(77);
        out.push(97);
        out.push(121);
    } else if m == 6 {
        out.push(74);
        out.push(117);
        out.push(110);
    } else if m == 7 {
        out.push(74);
        out.push(117);
        out.push(108);
    } else if m == 8 {
        out.push(65);
        out.push(117);
        out.push(103);
    } else if m == 9 {
        out.push(83);
        out.push(101);
        out.push(112);
    } else if m == 10 {
        out.push(79);
        out.push(99);
        out.push(116);
    } else if m == 11 {
        out.push(78);
        out.push(111);
        out.push(118);
    } else {
        out.push(68);
        out.push(101);
        out.push(99);
    }
    proof {
        assert(out@ =~= old(out)@ + month_abbrev(m as int));
    }
}

/// Formats the date as the `DD-Mon-YY` header text.
pub fn format_date_dmy(d: &WorkingDate) -> (r: Vec<u8>)
    requires
        date_wf(*d),
    ensures
        r@ == fmt_date_dmy(*d),
{
    let mut out: Vec<u8> = Vec::new();
    push_two_digits(&mut out, d.day);
    out.push(45);
    push_month_abbrev(&mut out, d.month);
    out.push(45);
    push_two_digits(&mut out, (d.year % 100) as u8);
    proof {
        assert(out@ =~= fmt_date_dmy(*d));
    }
    out
}

/// Formats the date as the `YYYY-MM-DD` key text.
pub fn format_date_ymd(d: &WorkingDate) -> (r: Vec<u8>)
    requires
        date_wf(*d),
    ensures
        r@ == fmt_date_ymd(*d),
{
    let mut out: Vec<u8> = Vec::new();
    let y = d.year;
    out.push(48 + (y / 1000) as u8);
    out.push(48 + ((y / 100) % 10) as u8);
    out.push(48 + ((y / 10) % 10) as u8);
    out.push(48 + (y % 10) as u8);
    out.push(45);
    push_two_digits(&mut out, d.month);
    out.push(45);
    push_two_digits(&mut out, d.day);
    proof {
        assert(out@ =~= fmt_date_ymd(*d));
    }
    out
}

/// Formats the date as the `DD Mon` label text.
pub fn format_date_dmon(d: &WorkingDate) -> (r: Vec<u8>)
    requires
        date_wf(*d),
    ensures
        r@ == fmt_date_dmon(*d),
{
    let mut out: Vec<u8> = Vec::new();
    push_two_digits(&mut out, d.day);
    out.push(32);
    push_month_abbrev(&mut out, d.month);
    proof {
        assert(out@ =~= fmt_date_dmon(*d));
    }
    out
}

} // verus!
