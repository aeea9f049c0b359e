use ezviz::calendar::expression_supported;
use ezviz::calendar::is_after_seconds;
use ezviz::calendar::label_with;
use ezviz::calendar::resolve_date;
use ezviz::calendar::to_instant;
use ezviz::calendar::Instant;
use ezviz::calendar::EARLIEST_NOW;
use ezviz::calendar::LATEST_NOW;
use ezviz::calendar::MAX_DIGITS;

const NEW_YEAR_2024: i64 = 1_704_067_200;

fn at(secs: i64) -> Option<Instant> {
    Some(Instant { secs, nanos: 0 })
}

#[test]
fn label_is_utc_date_and_time() {
    assert_eq!(label_with(1_431_648_000, ""), Some("2015-05-15 00:00:00 UTC".to_string()));
    assert_eq!(label_with(NEW_YEAR_2024, ".jpg"), Some("2024-01-01 00:00:00 UTC.jpg".to_string()));
    assert_eq!(label_with(0, ".jpg"), Some("1970-01-01 00:00:00 UTC.jpg".to_string()));
    assert_eq!(label_with(-1, ".jpg"), Some("1969-12-31 23:59:59 UTC.jpg".to_string()));
}

#[test]
fn label_agrees_with_chrono() {
    for secs in [1i64, 86_399, 951_782_400, 4_102_444_800, -62_135_596_800] {
        let expected = chrono::DateTime::from_timestamp(secs, 0).unwrap().to_string();
        assert_eq!(label_with(secs, ""), Some(expected));
    }
}

#[test]
fn timestamp_beyond_the_calendar_has_no_label() {
    assert_eq!(label_with(i64::MAX, ".jpg"), None);
    assert_eq!(label_with(i64::MIN, ".jpg"), None);
}

#[test]
fn now_bounds_are_the_years_one_and_9999() {
    let earliest = chrono::DateTime::from_timestamp(EARLIEST_NOW, 0).unwrap();
    let latest = chrono::DateTime::from_timestamp(LATEST_NOW, 0).unwrap();
    assert_eq!(earliest.to_string(), "0001-01-01 00:00:00 UTC");
    assert_eq!(latest.to_string(), "9999-12-31 23:59:59 UTC");
}

#[test]
fn to_instant_keeps_both_parts() {
    assert_eq!(to_instant(Some((5, 7))), Some(Instant { secs: 5, nanos: 7 }));
    assert_eq!(to_instant(None), None);
}

#[test]
fn absolute_dates_resolve_in_utc() {
    assert_eq!(resolve_date("2024-01-01", 0), at(NEW_YEAR_2024));
    assert_eq!(resolve_date("2024-01-01 00:00:01", 0), at(NEW_YEAR_2024 + 1));
    assert_eq!(resolve_date("2024-01-01 12:30", 0), at(NEW_YEAR_2024 + 45_000));
    assert_eq!(resolve_date("1 January 2024", 0), at(NEW_YEAR_2024));
    assert_eq!(resolve_date("January 1, 2024", 0), at(NEW_YEAR_2024));
    assert_eq!(resolve_date("01/02/24", 0), at(NEW_YEAR_2024 + 86_400));
}

#[test]
fn relative_dates_resolve_against_now() {
    let now = NEW_YEAR_2024 + 3_600;
    assert_eq!(resolve_date("yesterday", now), at(now - 86_400));
    assert_eq!(resolve_date("3 days ago", now), at(now - 3 * 86_400));
    assert_eq!(resolve_date("2 hours ago", now), at(now - 7_200));
    assert_eq!(resolve_date("1 week", now), at(now + 7 * 86_400));
    assert_eq!(resolve_date("now", now), at(now));
}

#[test]
fn fraction_of_a_second_is_kept() {
    assert_eq!(
        resolve_date("2024-01-01 00:00:00.5", 0),
        Some(Instant { secs: NEW_YEAR_2024, nanos: 500_000_000 })
    );
}

#[test]
fn unreadable_text_resolves_to_nothing() {
    assert_eq!(resolve_date("", 0), None);
    assert_eq!(resolve_date("bananas", 0), None);
    assert_eq!(resolve_date("2024-13-01", 0), None);
    assert_eq!(resolve_date("2024-01-01 00:00:00 UTC", 0), None);
}

#[test]
fn text_that_is_not_handed_to_the_parser_resolves_to_nothing() {
    // a number of more than six digits
    assert_eq!(resolve_date("99999999 weeks", 0), None);
    assert_eq!(resolve_date("1234567 days ago", 0), None);
    assert_eq!(resolve_date("2024-01-01 10:00 +1234567:00", 0), None);
    assert_eq!(resolve_date("2024-01-01T4294967290pm", 0), None);
    assert_eq!(resolve_date("jan .4294967290pm", 0), None);
    // no digit behind the full stop that follows the seconds
    assert_eq!(resolve_date("2024-01-01 10:30:45.x", 0), None);
    assert_eq!(resolve_date("2024-01-01 10:30:45 . 5", 0), None);
    // not ASCII
    assert_eq!(resolve_date("jeudi\u{e9}", 0), None);
    assert_eq!(resolve_date("dec\u{e9}mbre", 0), None);
}

#[test]
fn long_fraction_of_a_second_is_read() {
    assert_eq!(
        resolve_date("2024-01-01T10:00:00.123456789Z", 0),
        Some(Instant { secs: NEW_YEAR_2024 + 36_000, nanos: 123_456_000 })
    );
    assert_eq!(
        resolve_date("2024-01-01 00:00:00.1234567", 0),
        Some(Instant { secs: NEW_YEAR_2024, nanos: 123_456_000 })
    );
}

#[test]
fn tab_and_line_feed_are_white_space() {
    assert_eq!(resolve_date("2024-01-01\n", 0), at(NEW_YEAR_2024));
    assert_eq!(resolve_date("2024-01-01\t00:00:01", 0), at(NEW_YEAR_2024 + 1));
    assert_eq!(resolve_date("\r\n 1 January\t2024 ", 0), at(NEW_YEAR_2024));
}

#[test]
fn full_stop_that_the_parser_never_reaches_does_no_harm() {
    let now = NEW_YEAR_2024;
    assert_eq!(resolve_date("10.30pm.", now), at(NEW_YEAR_2024 + 22 * 3_600 + 1_800));
    assert_eq!(resolve_date("8.", now), None);
}

#[test]
fn digits_inside_a_word_are_no_number() {
    let now = NEW_YEAR_2024 + 40 * 86_400;
    assert_eq!(resolve_date("jan1234567", now), at(NEW_YEAR_2024));
    assert_eq!(resolve_date("x1234567", now), None);
}

#[test]
fn now_outside_the_years_resolves_to_nothing() {
    assert_eq!(resolve_date("2024-01-01", EARLIEST_NOW - 1), None);
    assert_eq!(resolve_date("2024-01-01", LATEST_NOW + 1), None);
    assert_eq!(resolve_date("2024-01-01", EARLIEST_NOW), at(NEW_YEAR_2024));
    assert_eq!(resolve_date("2024-01-01", LATEST_NOW), at(NEW_YEAR_2024));
}

#[test]
fn supported_expressions() {
    assert_eq!(MAX_DIGITS, 6);
    assert!(expression_supported(b""));
    assert!(expression_supported(b"next friday 8.30pm"));
    assert!(expression_supported(b"123456"));
    assert!(expression_supported(b"123456 123456"));
    assert!(expression_supported(b"a\tb\n"));
    assert!(expression_supported(&[0x00, 0x7f]));
    assert!(expression_supported(b"8."));
    assert!(expression_supported(b"10.30pm."));
    assert!(expression_supported(b"10:30."));
    // numbers
    assert!(!expression_supported(b"1234567"));
    assert!(!expression_supported(b" 1234567"));
    assert!(!expression_supported(b"8.1234567"));
    assert!(!expression_supported(b"10:30.1234567"));
    assert!(expression_supported(b"10:30:00.1234567"));
    assert!(expression_supported(b"10 : 30 :\t00 .123456789012345678901234567890"));
    assert!(expression_supported(b"x1234567"));
    assert!(expression_supported(b"_1234567"));
    assert!(expression_supported(b"oct1234567"));
    assert!(expression_supported(b"OCT1234567"));
    assert!(!expression_supported(b"T1234567"));
    assert!(!expression_supported(b"01T1234567"));
    assert!(!expression_supported(b"-T1234567"));
    assert!(expression_supported(b"T123456"));
    // the fraction of a second
    assert!(!expression_supported(b"10:30:00."));
    assert!(!expression_supported(b"10:30:00.x"));
    assert!(!expression_supported(b"10:30:00 . 5"));
    assert!(expression_supported(b"10:30:00 .5"));
    assert!(expression_supported(b"a:30:00."));
    assert!(expression_supported(b"10:30:x00."));
    // not ASCII
    assert!(!expression_supported(&[0x80]));
    assert!(!expression_supported(&[0xc3, 0xa9]));
}

#[test]
fn place_behind_the_seconds() {
    assert!(is_after_seconds(b"10:30:00.5", 8));
    assert!(is_after_seconds(b"1:2:3", 5));
    assert!(is_after_seconds(b"1 : 2\t:\n3  .", 11));
    assert!(!is_after_seconds(b"10:30.5", 5));
    assert!(!is_after_seconds(b"10:30:.5", 6));
    assert!(!is_after_seconds(b":30:00.5", 6));
    assert!(!is_after_seconds(b"10-30:00.5", 8));
    assert!(!is_after_seconds(b"", 0));
}

const WORDS: [&str; 46] = [
    "next", "last", "fri", "sunday", "jan", "april", "now", "today", "yesterday", "tomorrow", "ago",
    "am", "pm", "d", "h", "m", "s", "w", "y", "days", "weeks", "months", "years", "min", "T", "Z",
    "1", "7", "12", "31", "59", "2024", "999999", "0230", "-", "/", ":", ".5", ",", "+", ".", "\t",
    "'", ".1234567890", "jan1234567", "10:20:30",
];

const NOWS: [i64; 5] = [EARLIEST_NOW, -1, 951_782_400, NEW_YEAR_2024 + 86_399, LATEST_NOW];

#[test]
fn no_short_phrase_breaks_the_date_parser() {
    let mut resolved = 0usize;
    for a in WORDS {
        for b in WORDS {
            for c in WORDS {
                let spaced = format!("{} {} {}", a, b, c);
                let packed = format!("{}{}{}", a, b, c);
                for text in [spaced, packed] {
                    if resolve_date(&text, NEW_YEAR_2024).is_some() {
                        resolved += 1;
                    }
                }
            }
        }
    }
    assert!(resolved > 0);
}

#[test]
fn no_phrase_breaks_the_date_parser_at_any_now() {
    let mut resolved = 0usize;
    for now in NOWS {
        for a in WORDS {
            for b in WORDS {
                let text = format!("{} {}", a, b);
                if resolve_date(&text, now).is_some() {
                    resolved += 1;
                }
                let text = format!("{} {} 10:30:59.25 +02:00", a, b);
                if resolve_date(&text, now).is_some() {
                    resolved += 1;
                }
                let text = format!("2024-02-29 {}{}", a, b);
                if resolve_date(&text, now).is_some() {
                    resolved += 1;
                }
            }
        }
    }
    assert!(resolved > 0);
}

#[test]
fn no_random_text_breaks_the_date_parser() {
    let alphabet: &[u8] = b"0123456789 -/:.,+'\"_TZapmdhwys\n\t\0::..00";
    let mut state: u64 = 0x2545_f491_4f6c_dd1d;
    let mut supported = 0usize;
    for round in 0..150_000usize {
        let mut text = String::new();
        state = state.wrapping_mul(6_364_136_223_846_793_005).wrapping_add(1_442_695_040_888_963_407);
        let len = (state >> 33) as usize % 14;
        for _ in 0..len {
            state = state
                .wrapping_mul(6_364_136_223_846_793_005)
                .wrapping_add(1_442_695_040_888_963_407);
            let pick = (state >> 33) as usize % alphabet.len();
            text.push(alphabet[pick] as char);
        }
        if expression_supported(text.as_bytes()) {
            supported += 1;
        }
        let _ = resolve_date(&text, NOWS[round % NOWS.len()]);
    }
    assert!(supported > 0);
}
