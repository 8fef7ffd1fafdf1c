use std::cmp::Ordering;

use whisperdesk::strutil::parse_u32_digits;
use whisperdesk::timeutil::WallClock;
use whisperdesk::timeutil::compare_time_string;
use whisperdesk::timeutil::format_time_japanese;
use whisperdesk::timeutil::from_hms;
use whisperdesk::timeutil::parse_hyphen_time;
use whisperdesk::timeutil::parse_japanese_time;
use whisperdesk::timeutil::parse_time_any;

#[test]
fn hyphen_notation_parses() {
    assert_eq!(
        parse_time_any("10-15-30"),
        Some(WallClock { hour: 10, minute: 15, second: 30 })
    );
    assert_eq!(
        parse_hyphen_time("00-00-00"),
        Some(WallClock { hour: 0, minute: 0, second: 0 })
    );
}

#[test]
fn japanese_notation_parses() {
    assert_eq!(
        parse_time_any("14時5分9秒"),
        Some(WallClock { hour: 14, minute: 5, second: 9 })
    );
    assert_eq!(
        parse_japanese_time("  23時59分59秒  "),
        Some(WallClock { hour: 23, minute: 59, second: 59 })
    );
}

#[test]
fn out_of_range_times_are_rejected() {
    assert_eq!(parse_time_any("24-00-00"), None);
    assert_eq!(parse_time_any("10-60-00"), None);
    assert_eq!(parse_time_any("10-00-60"), None);
    assert_eq!(parse_time_any("10-00"), None);
    assert_eq!(parse_time_any("10-00-00-00"), None);
    assert_eq!(parse_time_any("bad"), None);
    assert_eq!(parse_time_any("25時0分0秒"), None);
    assert_eq!(from_hms(24, 0, 0), None);
    assert_eq!(from_hms(23, 59, 59), Some(WallClock { hour: 23, minute: 59, second: 59 }));
}

#[test]
fn parseable_times_order_by_value() {
    assert_eq!(compare_time_string("09-00-00", "10-15-30"), Ordering::Less);
    assert_eq!(compare_time_string("10-15-30", "09-00-00"), Ordering::Greater);
    assert_eq!(compare_time_string("10-15-30", "10時15分30秒"), Ordering::Equal);
}

#[test]
fn parseable_time_sorts_before_unparseable() {
    assert_eq!(compare_time_string("bad", "09-00-00"), Ordering::Greater);
    assert_eq!(compare_time_string("09-00-00", "bad"), Ordering::Less);
}

#[test]
fn unparseable_times_fall_back_to_text_order() {
    assert_eq!(compare_time_string("abc", "abd"), Ordering::Less);
    assert_eq!(compare_time_string("abc", "abc"), Ordering::Equal);
    assert_eq!(compare_time_string("b", "a"), Ordering::Greater);
}

#[test]
fn localized_formatting_drops_padding() {
    assert_eq!(format_time_japanese("14-05-09").unwrap(), "14時5分9秒");
    assert_eq!(format_time_japanese("00-00-00").unwrap(), "0時0分0秒");
    assert_eq!(format_time_japanese("not a time"), None);
}

#[test]
fn seconds_since_midnight_anchor() {
    let t = WallClock { hour: 10, minute: 0, second: 2 };
    assert_eq!(t.num_seconds_from_midnight(), 36002);
}

#[test]
fn digit_runs_parse_strictly() {
    assert_eq!(parse_u32_digits("4294967295"), Some(u32::MAX));
    assert_eq!(parse_u32_digits("4294967296"), None);
    assert_eq!(parse_u32_digits("007"), Some(7));
    assert_eq!(parse_u32_digits("+1"), None);
    assert_eq!(parse_u32_digits(""), None);
    assert_eq!(parse_u32_digits("1 "), None);
}
