use dnsmasq_agent::time::{
    epoch_secs_at, format_registered_time, format_registered_time_at, now_epoch_secs,
    to_signed_secs,
};
use std::time::{Duration, SystemTime};

#[test]
fn whole_hours_stand_alone() {
    assert_eq!(format_registered_time_at(1743446672, 28800), "2025-04-01T02:44:32.000+08");
    assert_eq!(format_registered_time_at(0, 0), "1970-01-01T00:00:00.000+00");
    assert_eq!(format_registered_time_at(0, -18000), "1969-12-31T19:00:00.000-05");
}

#[test]
fn other_zones_have_minutes() {
    assert_eq!(format_registered_time_at(0, 19800), "1970-01-01T05:30:00.000+05:30");
    assert_eq!(format_registered_time_at(0, -12600), "1969-12-31T20:30:00.000-03:30");
}

#[test]
fn times_at_the_ends() {
    assert_eq!(format_registered_time_at(8210266876799, 0), "+262142-12-31T23:59:59.000+00");
    assert_eq!(format_registered_time_at(-8334601228800, 0), "-262143-01-01T00:00:00.000+00");
    assert_eq!(format_registered_time_at(8210266876800, 0), "8210266876800");
    assert_eq!(format_registered_time_at(-8334601228801, 0), "-8334601228801");
    assert_eq!(format_registered_time_at(i64::MIN, 0), "-9223372036854775808");
    for offset in [-86399, -3600, 3600, 86399] {
        assert!(format_registered_time_at(8210266876799, offset).contains('T'));
        assert!(format_registered_time_at(-8334601228800, offset).contains('T'));
    }
}

#[test]
fn times_of_the_machine() {
    assert_eq!(format_registered_time(i64::MAX), "9223372036854775807");
    assert_eq!(format_registered_time(i64::MIN), "-9223372036854775808");
    let text = format_registered_time(1743446672);
    assert!(text.starts_with("2025-0") && text.contains(":32.000"));
    assert!(format_registered_time(8210266876799).contains('T'));
    assert!(format_registered_time(-8334601228800).contains('T'));
    assert_eq!(format_registered_time(8210266876800), "8210266876800");
    assert_eq!(format_registered_time(-8334601228801), "-8334601228801");
}

#[test]
fn clock_is_past_2020() {
    assert!(now_epoch_secs() > 1577836800);
}

#[test]
fn seconds_wrap_into_the_sign() {
    assert_eq!(to_signed_secs(5), 5);
    assert_eq!(to_signed_secs(i64::MAX as u64), i64::MAX);
    assert_eq!(to_signed_secs(u64::MAX), -1);
}

#[test]
fn points_in_time_count_whole_seconds() {
    let start = SystemTime::UNIX_EPOCH;
    assert_eq!(epoch_secs_at(&start), 0);
    assert_eq!(epoch_secs_at(&(start + Duration::from_secs(1743446672))), 1743446672);
    assert_eq!(epoch_secs_at(&(start + Duration::new(7, 999_999_999))), 7);
    assert_eq!(epoch_secs_at(&(start - Duration::from_secs(5))), 0);
    assert_eq!(epoch_secs_at(&(start - Duration::new(0, 1))), 0);
}

#[test]
fn clock_goes_on() {
    let before = epoch_secs_at(&SystemTime::now());
    let now = now_epoch_secs();
    let after = epoch_secs_at(&SystemTime::now());
    assert!(before <= now && now <= after);
}
