use samrewritten::calendar::{civil_from_days, days_from_civil, weekday};

#[test]
fn civil_days_round_trip() {
    assert_eq!(days_from_civil(1970, 1, 1), 0);
    assert_eq!(days_from_civil(1969, 12, 31), -1);
    assert_eq!(days_from_civil(2000, 3, 1), 11017);
    assert_eq!(civil_from_days(0), (1970, 1, 1));
    assert_eq!(civil_from_days(-1), (1969, 12, 31));
    for day in (-30000..30000).step_by(7) {
        let (y, m, d) = civil_from_days(day);
        assert_eq!(days_from_civil(y, m, d), day);
    }
}

#[test]
fn leap_day_is_a_day() {
    assert_eq!(civil_from_days(days_from_civil(2024, 2, 29)), (2024, 2, 29));
    assert_eq!(
        days_from_civil(2024, 3, 1) - days_from_civil(2024, 2, 28),
        2
    );
}

#[test]
fn century_years_are_leap_only_every_fourth_century() {
    assert_eq!(days_from_civil(1900, 3, 1) - days_from_civil(1900, 2, 28), 1);
    assert_eq!(days_from_civil(2000, 3, 1) - days_from_civil(2000, 2, 28), 2);
    assert_eq!(civil_from_days(days_from_civil(2000, 2, 29)), (2000, 2, 29));
}

#[test]
fn every_day_of_four_centuries_names_its_date() {
    let start = days_from_civil(1600, 3, 1);
    let end = days_from_civil(2000, 3, 1);
    assert_eq!(end - start, 146097);
    let mut previous = civil_from_days(start - 1);
    for day in start..end {
        let date = civil_from_days(day);
        assert_eq!(days_from_civil(date.0, date.1, date.2), day);
        assert_ne!(date, previous);
        previous = date;
    }
}

#[test]
fn the_epoch_was_a_thursday() {
    assert_eq!(weekday(0), 3);
    assert_eq!(weekday(-1), 2);
    assert_eq!(weekday(4), 0);
    assert_eq!(weekday(-4), 6);
}
