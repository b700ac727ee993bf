use chrono::NaiveDate;
use raptor_routing::calendar::{
    add_minutes_to_date_time, DAY, HOUR, MAX_DAY, MINUTE, MIN_DAY, SECOND,
};

#[test]
fn units_build_on_each_other() {
    assert_eq!(MINUTE, 60 * SECOND);
    assert_eq!(HOUR, 60 * MINUTE);
    assert_eq!(DAY, 24 * HOUR);
}

#[test]
fn calendar_covers_the_days_of_chrono() {
    assert_eq!(NaiveDate::MIN.to_epoch_days(), MIN_DAY);
    assert_eq!(NaiveDate::MAX.to_epoch_days(), MAX_DAY);
}

#[test]
fn minutes_are_added() {
    let noon = 20_254 * DAY + 12 * HOUR;
    assert_eq!(add_minutes_to_date_time(noon, 0), noon);
    assert_eq!(add_minutes_to_date_time(noon, 45), noon + 45 * MINUTE);
    assert_eq!(add_minutes_to_date_time(noon, -90), noon - 90 * MINUTE);
}

#[test]
fn minutes_lead_over_midnight() {
    let late = 20_254 * DAY + 23 * HOUR + 50 * MINUTE;
    assert_eq!(add_minutes_to_date_time(late, 15), 20_255 * DAY + 5 * MINUTE);
}

#[test]
fn minutes_lead_back_before_the_epoch() {
    assert_eq!(add_minutes_to_date_time(0, -1), -MINUTE);
    assert_eq!(add_minutes_to_date_time(-MINUTE, 1), 0);
}

#[test]
fn parts_of_a_minute_are_kept() {
    assert_eq!(add_minutes_to_date_time(1, 1), MINUTE + 1);
}

#[test]
fn minutes_reach_the_ends_of_the_calendar() {
    let first = i64::from(MIN_DAY) * DAY;
    let last = (i64::from(MAX_DAY) + 1) * DAY - 1;
    assert_eq!(add_minutes_to_date_time(first + MINUTE, -1), first);
    assert_eq!(add_minutes_to_date_time(last - MINUTE, 1), last);
}
