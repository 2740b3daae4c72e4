use dfac_ingest::date::Date;

#[test]
fn from_ymd_opt_accepts_real_dates() {
    assert!(Date::from_ymd_opt(2023, 8, 30).is_some());
    assert!(Date::from_ymd_opt(2024, 2, 29).is_some());
    assert!(Date::from_ymd_opt(2000, 2, 29).is_some());
    assert!(Date::from_ymd_opt(0, 1, 1).is_some());
    assert!(Date::from_ymd_opt(9999, 12, 31).is_some());
}

#[test]
fn from_ymd_opt_rejects_impossible_dates() {
    assert!(Date::from_ymd_opt(2023, 2, 29).is_none());
    assert!(Date::from_ymd_opt(1900, 2, 29).is_none());
    assert!(Date::from_ymd_opt(2023, 13, 1).is_none());
    assert!(Date::from_ymd_opt(2023, 0, 1).is_none());
    assert!(Date::from_ymd_opt(2023, 4, 31).is_none());
    assert!(Date::from_ymd_opt(2023, 1, 0).is_none());
    assert!(Date::from_ymd_opt(10000, 1, 1).is_none());
}

#[test]
fn timestamps_are_midnight_utc_seconds() {
    assert_eq!(Date::from_ymd_opt(1970, 1, 1).unwrap().timestamp(), 0);
    assert_eq!(Date::from_ymd_opt(1970, 1, 2).unwrap().timestamp(), 86_400);
    assert_eq!(Date::from_ymd_opt(1969, 12, 31).unwrap().timestamp(), -86_400);
    assert_eq!(
        Date::from_ymd_opt(2023, 8, 30).unwrap().timestamp(),
        1_693_353_600
    );
}

#[test]
fn weekdays_match_the_calendar() {
    // 0 = Sunday through 6 = Saturday.
    assert_eq!(Date::from_ymd_opt(1970, 1, 1).unwrap().weekday(), 4);
    assert_eq!(Date::from_ymd_opt(2023, 8, 30).unwrap().weekday(), 3);
    assert_eq!(Date::from_ymd_opt(2000, 1, 1).unwrap().weekday(), 6);
    assert_eq!(Date::from_ymd_opt(2024, 2, 29).unwrap().weekday(), 4);
}
