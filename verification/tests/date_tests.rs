use gregorian::date::{Date, DateUnit};
use gregorian::error::DateError;

#[test]
fn astrolabe_date_now_test() {
    let date = Date::now();
    assert!(2021 < date.get(DateUnit::Year));
}

#[test]
fn astrolabe_date_from_ymd_test() {
    let date = Date::from_ymd(2022, 05, 02).unwrap();
    assert_eq!("2022/05/02", date.format("yyyy/MM/dd"));
}

#[test]
fn astrolabe_date_from_timestamp_test() {
    let date = Date::from_timestamp(0).unwrap();
    assert_eq!("1970/01/01", date.format("yyyy/MM/dd"));
}

#[test]
fn astrolabe_date_from_days_test() {
    let date = Date::from_days(738276);
    assert_eq!("2022/05/02", date.format("yyyy/MM/dd"));
}

#[test]
fn astrolabe_date_as_days_test() {
    let date = Date::from_ymd(1, 1, 1).unwrap();
    assert_eq!(0, date.as_days());
}

#[test]
fn astrolabe_date_timestamp_test() {
    let date = Date::from_ymd(2000, 1, 1).unwrap();
    assert_eq!(946_684_800, date.timestamp());
}

#[test]
fn astrolabe_date_between_test() {
    let date = Date::from_ymd(1970, 1, 1).unwrap();
    let date2 = Date::from_ymd(1970, 2, 1).unwrap();
    assert_eq!(31, date.between(&date2));
}

#[test]
fn astrolabe_date_get_test() {
    let date = Date::from_ymd(2022, 5, 2).unwrap();
    assert_eq!(2022, date.get(DateUnit::Year));
    assert_eq!(5, date.get(DateUnit::Month));
    assert_eq!(2, date.get(DateUnit::Day));
}

#[test]
fn astrolabe_date_set_test() {
    let mut date = Date::from_ymd(2022, 5, 2).unwrap();
    date = date.set(2000, DateUnit::Year).unwrap();
    date = date.set(10, DateUnit::Day).unwrap();
    assert_eq!("2000/05/10", date.format("yyyy/MM/dd"));
}

#[test]
fn astrolabe_date_apply_test() {
    let date = Date::from_ymd(1970, 1, 1).unwrap();
    let applied = date.apply(1, DateUnit::Day).unwrap();
    assert_eq!("1970/01/01", date.format("yyyy/MM/dd"));
    assert_eq!("1970/01/02", applied.format("yyyy/MM/dd"));
}

#[test]
fn astrolabe_date_format_test() {
    let date = Date::from_ymd(2022, 5, 2).unwrap();
    assert_eq!("2022/05/02", date.format("yyyy/MM/dd"));
    assert_eq!("2022/MM/dd", date.format("yyyy/'MM/dd'"));
    assert_eq!("2022/'05/02'", date.format("yyyy/''MM/dd''"));
}

#[test]
fn epoch_day_is_first_of_year_one() {
    let date = Date::from_days(0);
    assert_eq!(1, date.get(DateUnit::Year));
    assert_eq!(1, date.get(DateUnit::Month));
    assert_eq!(1, date.get(DateUnit::Day));
}

#[test]
fn between_is_symmetric_and_zero_on_equal() {
    let a = Date::from_ymd(1999, 12, 31).unwrap();
    let b = Date::from_ymd(2000, 3, 1).unwrap();
    assert_eq!(a.between(&b), b.between(&a));
    assert_eq!(0, a.between(&a));
}

#[test]
fn ymd_round_trip_samples() {
    let samples = [
        (1, 1, 1),
        (4, 2, 29),
        (100, 2, 28),
        (400, 2, 29),
        (1969, 12, 31),
        (2000, 2, 29),
        (2022, 5, 2),
        (5879610, 6, 15),
    ];
    let mut k = 0;
    while k < samples.len() {
        let (y, m, d) = samples[k];
        let date = Date::from_ymd(y, m, d).unwrap();
        assert_eq!(y, date.get(DateUnit::Year));
        assert_eq!(m as i32, date.get(DateUnit::Month));
        assert_eq!(d as i32, date.get(DateUnit::Day));
        k += 1;
    }
}

#[test]
fn largest_day_count_round_trips() {
    let date = Date::from_days(i32::MAX);
    let y = date.get(DateUnit::Year);
    let m = date.get(DateUnit::Month) as u32;
    let d = date.get(DateUnit::Day) as u32;
    let rebuilt = Date::from_ymd(y, m, d).unwrap();
    assert_eq!(i32::MAX, rebuilt.as_days());
}

#[test]
fn timestamps_floor_toward_earlier_days() {
    assert_eq!("1970/01/01", Date::from_timestamp(86_399).unwrap().format("yyyy/MM/dd"));
    assert_eq!("1970/01/02", Date::from_timestamp(86_400).unwrap().format("yyyy/MM/dd"));
    assert_eq!("1969/12/31", Date::from_timestamp(-1).unwrap().format("yyyy/MM/dd"));
    assert_eq!("1969/12/31", Date::from_timestamp(-86_400).unwrap().format("yyyy/MM/dd"));
}

#[test]
fn timestamp_of_earliest_and_out_of_range() {
    let first = Date::from_timestamp(-62_135_596_800).unwrap();
    assert_eq!(0, first.as_days());
    assert!(matches!(
        Date::from_timestamp(-62_135_596_801),
        Err(DateError::OutOfRange(_))
    ));
    assert!(matches!(Date::from_timestamp(i64::MIN), Err(DateError::OutOfRange(_))));
    assert!(matches!(Date::from_timestamp(i64::MAX), Err(DateError::OutOfRange(_))));
}

#[test]
fn from_ymd_rejects_invalid_fields() {
    assert!(matches!(Date::from_ymd(2022, 13, 1), Err(DateError::OutOfRange(_))));
    assert!(matches!(Date::from_ymd(2022, 0, 1), Err(DateError::OutOfRange(_))));
    assert!(matches!(Date::from_ymd(2022, 4, 31), Err(DateError::OutOfRange(_))));
    assert!(matches!(Date::from_ymd(2022, 2, 29), Err(DateError::OutOfRange(_))));
    assert!(matches!(Date::from_ymd(0, 1, 1), Err(DateError::OutOfRange(_))));
    assert!(matches!(Date::from_ymd(-50, 1, 1), Err(DateError::OutOfRange(_))));
    assert!(matches!(Date::from_ymd(6000000, 1, 1), Err(DateError::OutOfRange(_))));
}

#[test]
fn error_messages_name_the_offending_quantity() {
    let err = Date::from_ymd(2022, 13, 1).unwrap_err();
    assert!(err.message().contains("month"));
    let err = Date::from_ymd(2022, 4, 31).unwrap_err();
    assert!(err.message().contains("day"));
}

#[test]
fn set_validates_the_whole_date() {
    let date = Date::from_ymd(2022, 1, 31).unwrap();
    assert!(matches!(date.set(2, DateUnit::Month), Err(DateError::OutOfRange(_))));
    assert!(matches!(date.set(32, DateUnit::Day), Err(DateError::OutOfRange(_))));
    assert!(matches!(date.set(0, DateUnit::Month), Err(DateError::OutOfRange(_))));
    let moved = date.set(3, DateUnit::Month).unwrap();
    assert_eq!("2022/03/31", moved.format("yyyy/MM/dd"));
    assert_eq!("2022/01/31", date.format("yyyy/MM/dd"));
}

#[test]
fn apply_months_clamps_to_month_length() {
    let jan31 = Date::from_ymd(2020, 1, 31).unwrap();
    let feb = jan31.apply(1, DateUnit::Month).unwrap();
    assert_eq!(2, feb.get(DateUnit::Month));
    assert_eq!(29, feb.get(DateUnit::Day));
    let jan31_plain = Date::from_ymd(2019, 1, 31).unwrap();
    let feb_plain = jan31_plain.apply(1, DateUnit::Month).unwrap();
    assert_eq!("2019/02/28", feb_plain.format("yyyy/MM/dd"));
}

#[test]
fn apply_years_clamps_leap_day() {
    let leap_day = Date::from_ymd(2020, 2, 29).unwrap();
    let next = leap_day.apply(1, DateUnit::Year).unwrap();
    assert_eq!("2021/02/28", next.format("yyyy/MM/dd"));
    let four_later = leap_day.apply(4, DateUnit::Year).unwrap();
    assert_eq!("2024/02/29", four_later.format("yyyy/MM/dd"));
}

#[test]
fn apply_crosses_year_boundaries() {
    let date = Date::from_ymd(2022, 1, 15).unwrap();
    assert_eq!("2021/12/15", date.apply(-1, DateUnit::Month).unwrap().format("yyyy/MM/dd"));
    assert_eq!("2023/01/15", date.apply(12, DateUnit::Month).unwrap().format("yyyy/MM/dd"));
}

#[test]
fn apply_rejects_results_outside_the_range() {
    let first = Date::from_days(0);
    assert!(matches!(first.apply(-1, DateUnit::Day), Err(DateError::OutOfRange(_))));
    assert!(matches!(first.apply(-1, DateUnit::Month), Err(DateError::OutOfRange(_))));
    assert!(matches!(first.apply(-1, DateUnit::Year), Err(DateError::OutOfRange(_))));
    let last = Date::from_days(i32::MAX);
    assert!(matches!(last.apply(1, DateUnit::Day), Err(DateError::OutOfRange(_))));
    assert!(matches!(last.apply(1, DateUnit::Year), Err(DateError::OutOfRange(_))));
    assert!(matches!(
        last.apply(i32::MAX, DateUnit::Month),
        Err(DateError::OutOfRange(_))
    ));
}

#[test]
fn format_handles_quoting_edge_cases() {
    let date = Date::from_ymd(2022, 5, 2).unwrap();
    assert_eq!("2022/MM", date.format("yyyy/'MM"));
    assert_eq!("'", date.format("''"));
    assert_eq!("", date.format(""));
    assert_eq!("yyy-05", date.format("'yyy'-MM"));
    assert_eq!("y05", date.format("yMM"));
}

#[test]
fn format_pads_and_extends_fields() {
    let early = Date::from_ymd(33, 1, 9).unwrap();
    assert_eq!("0033/01/09", early.format("yyyy/MM/dd"));
    let wide = Date::from_ymd(10000, 12, 31).unwrap();
    assert_eq!("10000/12/31", wide.format("yyyy/MM/dd"));
}
