use gugen::clock::{civil_from_days, format_rfc3339, now_rfc3339};
use gugen::doctor::doctor_report;

#[test]
fn doctor_report_mentions_versions_and_mikiwame_status() {
    let text = doctor_report();
    assert!(text.contains("gugen version:"));
    assert!(text.contains("mikiwame integration status:"));
    assert!(text.contains("chematic-crystal integration status:"));
    assert!(text.contains("literature evidence provider:"));
    assert!(text.contains("known limitations:"));
}

#[test]
fn now_rfc3339_round_trips_through_the_civil_calendar_conversion() {
    assert_eq!(civil_from_days(19_723), (2024, 1, 1));
    assert_eq!(civil_from_days(0), (1970, 1, 1));
    let now = now_rfc3339();
    assert!(now.starts_with("20"), "unexpected timestamp: {now}");
    assert!(now.ends_with('Z'));
}

#[test]
fn civil_from_days_handles_leap_days_and_dates_before_the_epoch() {
    assert_eq!(civil_from_days(-1), (1969, 12, 31));
    assert_eq!(civil_from_days(59), (1970, 3, 1));
    assert_eq!(civil_from_days(11_016), (2000, 2, 29));
    assert_eq!(civil_from_days(-719_468), (0, 3, 1));
}

#[test]
fn format_rfc3339_pads_every_field() {
    assert_eq!(format_rfc3339(0), "1970-01-01T00:00:00Z");
    assert_eq!(format_rfc3339(1_704_067_200 + 3_661), "2024-01-01T01:01:01Z");
    assert_eq!(format_rfc3339(951_782_399), "2000-02-28T23:59:59Z");
}
