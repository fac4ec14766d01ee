use basecamp::age::{age_of_parts, is_readable, show_age, spot_age_minutes, spot_age_minutes_at, spot_age_str};
use basecamp::clock::Moment;

/// 2025-03-16T14:30:00Z
const NOON: i64 = 1_742_135_400;

fn at(secs: i64) -> Moment {
    Moment { secs, nanos: 0 }
}

#[test]
fn full_times_have_an_age() {
    assert_eq!(spot_age_minutes_at("2025-03-16T14:23:00", at(NOON)), 7);
    assert_eq!(spot_age_minutes_at("  2025-03-16T14:23:00 ", at(NOON)), 7);
    assert_eq!(spot_age_minutes_at("2025-03-16T14:23:00.123", at(NOON)), 7);
    assert_eq!(spot_age_minutes_at("2025-03-16T14:23:00Z", at(NOON)), 7);
    assert_eq!(spot_age_minutes_at("2025-03-16T14:23:01", at(NOON)), 6);
    assert_eq!(spot_age_minutes_at("2025-03-15T14:30:00", at(NOON)), 1440);
    assert_eq!(spot_age_minutes_at("2025-03-16T14:35:30", at(NOON)), -5);
    assert_eq!(spot_age_minutes_at("1925-03-16T14:30:00", at(NOON)), 1440 * 36525);
}

#[test]
fn full_minutes_are_counted() {
    for k in 0..200 {
        for rest in [0, 1, 59] {
            assert_eq!(spot_age_minutes_at("2025-03-16T14:23:00", at(1_742_134_980 + 60 * k + rest)), k);
        }
    }
    let just_before = Moment { secs: 1_742_134_980 + 59, nanos: 999_999_999 };
    assert_eq!(spot_age_minutes_at("2025-03-16T14:23:00", just_before), 0);
}

#[test]
fn leap_seconds_are_counted() {
    assert_eq!(spot_age_minutes_at("2025-03-16T14:29:60", at(NOON)), 0);
    let later = Moment { secs: NOON + 60, nanos: 0 };
    assert_eq!(spot_age_minutes_at("2025-03-16T14:29:60", later), 1);
    let before = Moment { secs: NOON + 58, nanos: 999_999_999 };
    assert_eq!(spot_age_minutes_at("2025-03-16T14:29:60", before), 0);
}

#[test]
fn times_of_day_are_those_of_today_or_yesterday() {
    assert_eq!(spot_age_minutes_at("14:23", at(NOON)), 7);
    assert_eq!(spot_age_minutes_at("4:23", at(NOON)), 607);
    assert_eq!(spot_age_minutes_at("14:40", at(NOON)), -10);
    assert_eq!(spot_age_minutes_at("14:41", at(NOON)), 1429);
    assert_eq!(spot_age_minutes_at("23:59", at(NOON)), 871);
    assert_eq!(spot_age_minutes_at("00:00", at(NOON)), 870);
}

#[test]
fn other_texts_have_no_age() {
    for t in ["", "-", "  ", " - ", "24:00", "12:60", "1423", "14:23:00", "yesterday", "1:2", "2025-03-16", "2025-02-30T00:00:00"] {
        assert_eq!(spot_age_minutes_at(t, at(NOON)), 999, "{:?}", t);
        assert!(is_readable(t));
    }
}

#[test]
fn a_text_cut_within_a_character_cannot_be_read() {
    let bad = "2025-03-16T14:23:0€€";
    assert!(!is_readable(bad));
    assert_eq!(spot_age_minutes(bad), None);
    assert_eq!(spot_age_str(bad), None);
    let good = "2025-03-16T14:23:00€";
    assert!(is_readable(good));
    assert_eq!(spot_age_minutes_at(good, at(NOON)), 7);
}

#[test]
fn ages_are_shown() {
    for (mins, text) in [
        (0, "now"), (1, "1m"), (59, "59m"), (60, "1h0m"), (75, "1h15m"), (998, "16h38m"), (999, "??"), (-1, "??"), (100000, "??"),
        (i64::MIN, "??"), (i64::MAX, "??"),
    ] {
        assert_eq!(show_age(mins), text);
    }
    assert_eq!(spot_age_str("-").as_deref(), Some("??"));
    assert_eq!(spot_age_str("").as_deref(), Some("??"));
}

#[test]
fn the_clock_of_the_machine_is_used() {
    let now = chrono::Utc::now();
    let text = (now - chrono::TimeDelta::minutes(30)).format("%Y-%m-%dT%H:%M:%S").to_string();
    let age = spot_age_minutes(&text).unwrap();
    assert!((30..=31).contains(&age));
    let shown = spot_age_str(&text).unwrap();
    assert!(shown == "30m" || shown == "31m");
    assert_eq!(spot_age_minutes("2000-01-01T00:00:00").map(|m| m > 999), Some(true));
}

#[test]
fn what_was_read_has_an_age() {
    assert_eq!(age_of_parts(Some((NOON - 600, 0)), Some((0, 0)), at(NOON)), 10);
    assert_eq!(age_of_parts(Some((NOON + 600, 0)), None, at(NOON)), -10);
    assert_eq!(age_of_parts(None, Some((14 * 3600 + 23 * 60, 0)), at(NOON)), 7);
    assert_eq!(age_of_parts(None, Some((14 * 3600 + 40 * 60, 0)), at(NOON)), -10);
    assert_eq!(age_of_parts(None, Some((14 * 3600 + 41 * 60, 0)), at(NOON)), 1429);
    assert_eq!(age_of_parts(None, None, at(NOON)), 999);
}
