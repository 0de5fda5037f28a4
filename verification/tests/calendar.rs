use chrono::{Datelike, Duration, NaiveDate};
use rand::Rng;
use settrade_dw::calendar::{
    format_date_dmon, format_date_dmy, format_date_ymd, get_working_date_time_from, Weekday,
    WorkingDate, WorkingDateTime,
};

fn wdt(date: NaiveDate, hour: u8, minute: u8) -> WorkingDateTime {
    let weekday = match date.weekday() {
        chrono::Weekday::Mon => Weekday::Mon,
        chrono::Weekday::Tue => Weekday::Tue,
        chrono::Weekday::Wed => Weekday::Wed,
        chrono::Weekday::Thu => Weekday::Thu,
        chrono::Weekday::Fri => Weekday::Fri,
        chrono::Weekday::Sat => Weekday::Sat,
        chrono::Weekday::Sun => Weekday::Sun,
    };
    WorkingDateTime {
        date: WorkingDate {
            year: date.year() as u16,
            month: date.month() as u8,
            day: date.day() as u8,
        },
        weekday,
        hour,
        minute,
    }
}

fn date_of(dt: &WorkingDateTime) -> NaiveDate {
    NaiveDate::from_ymd_opt(dt.date.year as i32, dt.date.month as u32, dt.date.day as u32).unwrap()
}

// The week of Monday 2021-03-01 anchors the adapted calendar tests.
fn anchor_day(weekday_index: u32) -> NaiveDate {
    NaiveDate::from_ymd_opt(2021, 3, 1).unwrap() + Duration::days(weekday_index as i64)
}

#[test]
fn test_get_working_date_time_from_mon_to_thu_after_1630() {
    let mut rand = rand::thread_rng();
    let date = anchor_day(rand.gen_range(0..4));
    let datetime = wdt(date, 16, rand.gen_range(30..60));

    let new_datetime = get_working_date_time_from(datetime);

    assert_ne!(datetime, new_datetime);
    assert_eq!(date + Duration::days(1), date_of(&new_datetime));
}

#[test]
fn test_get_working_date_time_from_fri_to_sun_after_1630() {
    let mut rand = rand::thread_rng();
    let idx = rand.gen_range(4..7);
    let date = anchor_day(idx);
    let datetime = wdt(date, 16, rand.gen_range(30..60));

    let days_to_mon = match datetime.weekday {
        Weekday::Fri => 3,
        Weekday::Sat => 2,
        Weekday::Sun => 1,
        _ => 0,
    };

    let new_datetime = get_working_date_time_from(datetime);

    assert_ne!(datetime, new_datetime);
    assert_eq!(date + Duration::days(days_to_mon), date_of(&new_datetime));
    assert_eq!(Weekday::Mon, new_datetime.weekday);
}

#[test]
fn test_get_working_date_time_from_working_day_1600_to_1629() {
    let mut rand = rand::thread_rng();
    let date = anchor_day(rand.gen_range(0..5));
    let datetime = wdt(date, 16, rand.gen_range(0..30));

    let new_datetime = get_working_date_time_from(datetime);

    assert_eq!(datetime, new_datetime);
}

#[test]
fn test_get_working_date_time_from_working_day_before_1600() {
    let mut rand = rand::thread_rng();
    let date = anchor_day(rand.gen_range(0..5));
    let datetime = wdt(date, rand.gen_range(0..16), rand.gen_range(0..60));

    let new_datetime = get_working_date_time_from(datetime);

    assert_eq!(datetime, new_datetime);
}

#[test]
fn test_get_working_date_time_from_saturday() {
    let mut rand = rand::thread_rng();
    let date = anchor_day(5);
    let datetime = wdt(date, rand.gen_range(0..24), rand.gen_range(0..60));

    let new_datetime = get_working_date_time_from(datetime);

    assert_ne!(datetime, new_datetime);
    assert_eq!(Weekday::Mon, new_datetime.weekday);
    assert_eq!(
        chrono::Weekday::Mon,
        date_of(&new_datetime).weekday()
    );
}

#[test]
fn test_get_working_date_time_from_sunday() {
    let mut rand = rand::thread_rng();
    let date = anchor_day(6);
    let datetime = wdt(date, rand.gen_range(0..24), rand.gen_range(0..60));

    let new_datetime = get_working_date_time_from(datetime);

    assert_ne!(datetime, new_datetime);
    assert_eq!(Weekday::Mon, new_datetime.weekday);
    assert_eq!(
        chrono::Weekday::Mon,
        date_of(&new_datetime).weekday()
    );
}

#[test]
fn working_date_crosses_month_and_year_ends() {
    // Friday 2020-12-31? 2020-12-31 was a Thursday: after the cutover the
    // next calendar day is taken, crossing the year end.
    let date = NaiveDate::from_ymd_opt(2020, 12, 31).unwrap();
    let datetime = wdt(date, 17, 0);
    let new_datetime = get_working_date_time_from(datetime);
    assert_eq!(date_of(&new_datetime), NaiveDate::from_ymd_opt(2021, 1, 1).unwrap());
}

#[test]
fn date_formats_match_the_sources() {
    let d = WorkingDate { year: 2020, month: 12, day: 23 };
    assert_eq!(format_date_dmy(&d), b"23-Dec-20".to_vec());
    assert_eq!(format_date_ymd(&d), b"2020-12-23".to_vec());
    assert_eq!(format_date_dmon(&d), b"23 Dec".to_vec());
    let d2 = WorkingDate { year: 2024, month: 7, day: 4 };
    assert_eq!(format_date_dmy(&d2), b"04-Jul-24".to_vec());
    assert_eq!(format_date_ymd(&d2), b"2024-07-04".to_vec());
    assert_eq!(format_date_dmon(&d2), b"04 Jul".to_vec());
}
