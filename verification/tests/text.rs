//! Texts, times and ordered collections.

use chrono::{DateTime, SubsecRound, TimeDelta, Utc};
use tufops::order;
use tufops::strmap;
use tufops::strmap::{StrMap, StrSet, Value};
use tufops::text;
use tufops::time::Time;

fn owned(parts: &[&str]) -> Vec<String> {
    parts.iter().map(|p| p.to_string()).collect()
}

#[test]
fn texts_are_taken_apart() {
    assert_eq!(text::strip_prefix("sign/add", "sign/"), Some("add".to_owned()));
    assert_eq!(text::strip_prefix("main", "sign/"), None);
    assert_eq!(text::strip_suffix("root.json", ".json"), Some("root".to_owned()));
    assert_eq!(text::strip_suffix("root.toml", ".json"), None);
    assert_eq!(text::split_once("bucket/a/b", '/'), Some(("bucket".to_owned(), "a/b".to_owned())));
    assert_eq!(text::split_once("bucket", '/'), None);
    assert_eq!(text::split("a//b/", '/'), ["a", "", "b", ""]);
    assert_eq!(text::split("", '/'), [""]);
    assert_eq!(text::strip("//a/b//", '/'), "a/b");
    assert_eq!(text::strip_start("//a/", '/'), "a/");
    assert_eq!(text::strip_end("/a//", '/'), "/a");
    assert!(text::has_char("a/b", '/'));
    assert!(!text::has_char("ab", '/'));
}

#[test]
fn texts_are_put_together() {
    assert_eq!(text::cat("add-", "é"), "add-é");
    assert_eq!(text::join(&owned(&["a", "b", "c"]), ", "), "a, b, c");
    assert_eq!(text::join(&vec![], ", "), "");
    assert_eq!(text::to_decimal(0), "0");
    assert_eq!(text::to_decimal(u64::MAX), "18446744073709551615");
}

#[test]
fn white_space_is_trimmed() {
    for s in ["", "  ", " a b\n", "\u{2003}x\u{a0}", "\t\r\nline\r\n", "none"] {
        assert_eq!(text::trim(s), s.trim());
    }
}

#[test]
fn every_white_character_is_trimmed_and_no_other() {
    for c in '\0'..=char::MAX {
        let trimmed = text::trim(&format!("{c}a{c}"));
        assert_eq!(trimmed, format!("{c}a{c}").trim(), "{c:?}");
    }
}

#[test]
fn lines_end_in_line_feeds() {
    for s in ["", "a", "a\n", "a\nb", "a\r\nb\r\n", "\n\n", "a\rb\n", "a\n\r"] {
        let expected: Vec<String> = s.lines().map(str::to_owned).collect();
        assert_eq!(text::lines(s), expected);
    }
}

#[test]
fn texts_are_ordered_like_strings() {
    for a in ["", "a", "ab", "b", "é", "\u{ffff}", "\u{10000}"] {
        for b in ["", "a", "ab", "b", "é", "\u{ffff}", "\u{10000}"] {
            assert_eq!(text::before(a, b), a < b, "{a:?} {b:?}");
        }
    }
}

#[test]
fn maps_hold_the_last_value_of_each_key_in_order() {
    let mut map = StrMap::new();
    map.insert("b".to_owned(), "1".to_owned());
    map.insert("a".to_owned(), "2".to_owned());
    map.insert("b".to_owned(), "3".to_owned());
    assert_eq!(map.len(), 2);
    assert_eq!((map.key(0).as_str(), map.value(0).as_str()), ("a", "2"));
    assert_eq!((map.key(1).as_str(), map.value(1).as_str()), ("b", "3"));
    assert_eq!(map.get("b"), Some(&"3".to_owned()));
    assert_eq!(map.get("c"), None);
    let copy = strmap::collect(&map.to_pairs());
    assert!(copy.same_as(&map));
    map.remove("a");
    map.remove("c");
    assert!(!map.contains("a") && map.contains("b"));
    assert!(!copy.same_as(&map));
}

#[test]
fn sets_hold_each_item_once() {
    let set = StrSet::from_vec(&owned(&["b", "a", "b"]));
    assert_eq!(set.to_vec(), ["a", "b"]);
    let mut other = StrSet::new();
    other.insert("a".to_owned());
    assert_eq!(set.minus(&other).to_vec(), ["b"]);
    assert_eq!(other.minus(&set).len(), 0);
}

#[test]
fn signatures_are_sorted_by_key_and_value() {
    let sig = |key_id: &str, value: &[u8]| tufops::keys::Signature {
        key_id: key_id.to_owned(),
        value: value.to_vec(),
    };
    let sorted = order::sort(&vec![sig("b", b"1"), sig("a", b"2"), sig("a", b"1"), sig("a", b"")]);
    let seen: Vec<_> = sorted.iter().map(|s| (s.key_id.as_str(), s.value.as_slice())).collect();
    let expected: Vec<(&str, &[u8])> = vec![("a", b""), ("a", b"1"), ("a", b"2"), ("b", b"1")];
    assert_eq!(seen, expected);
}

#[test]
fn times_lie_in_the_calendar() {
    let first = chrono::DateTime::<chrono::Utc>::MIN_UTC.timestamp();
    let last = chrono::DateTime::<chrono::Utc>::MAX_UTC.timestamp();
    assert_eq!(tufops::time::FIRST_SECOND, first);
    assert_eq!(tufops::time::LAST_SECOND, last);
    assert!(Time::new(first, 0).is_some() && Time::new(first - 1, 0).is_none());
    assert!(Time::new(last, 999_999_999).is_some() && Time::new(last + 1, 0).is_none());
    assert!(!Time::new(first, 0).unwrap().date().is_empty());
    assert!(!Time::new(last, 999_999_999).unwrap().minute().is_empty());
}

#[test]
fn times_are_shown_and_counted() {
    let t = Time::new(1_797_996_780, 500).unwrap();
    assert_eq!(t.date(), "2026-12-23");
    assert_eq!(t.minute(), "2026-12-23 03:33 UTC");
    assert_eq!(t.truncated(), Time::new(1_797_996_780, 0).unwrap());
    assert_eq!((t.seconds(), t.subsec_nanos()), (1_797_996_780, 500));
    assert_eq!(t.plus_days(2).seconds(), 1_797_996_780 + 2 * 86_400);
    assert_eq!(t.plus_days(-1).date(), "2026-12-22");
    assert!(t.earlier_than(&t.plus_days(1)) && !t.earlier_than(&t));
    let before = Time::new(-1, 0).unwrap();
    assert_eq!(before.minute(), "1969-12-31 23:59 UTC");
}

#[test]
fn a_time_is_within_days_of_a_later_one() {
    let t = Time::new(1_000_000, 0).unwrap();
    assert!(!t.within_days_of(&t.plus_days(7), 7));
    assert!(t.within_days_of(&Time::new(1_000_000 + 7 * 86_400 - 1, 999_999_999).unwrap(), 7));
    assert!(t.within_days_of(&t.plus_days(-30), 7));
}

#[test]
fn leap_seconds_are_seconds_of_their_own() {
    // The end of a minute, its last second, the leap second after it, and the next minute.
    let parts: Vec<(i64, u32)> = vec![
        (1_483_228_798, 999_999_999),
        (1_483_228_799, 0),
        (1_483_228_799, 500_000_000),
        (1_483_228_799, 1_000_000_000),
        (1_483_228_799, 1_500_000_000),
        (1_483_228_799, 1_999_999_999),
        (1_483_228_800, 0),
        (1_483_228_800, 500_000_000),
        (1_483_275_599, 1_250_000_000),
        (1_483_315_199, 1_500_000_000),
    ];
    let pair = |t: DateTime<Utc>| (t.timestamp(), t.timestamp_subsec_nanos());
    let own = |t: Time| (t.seconds(), t.subsec_nanos());
    assert!(Time::new(0, 2_000_000_000).is_none());
    for (i, (secs, nanos)) in parts.iter().enumerate() {
        let t = Time::new(*secs, *nanos).unwrap();
        let c: DateTime<Utc> = DateTime::from_timestamp(*secs, *nanos).unwrap();
        assert_eq!(own(t), pair(c));
        assert_eq!(t.date(), c.format("%Y-%m-%d").to_string());
        assert_eq!(t.minute(), c.format("%Y-%m-%d %H:%M UTC").to_string());
        assert_eq!(own(t.truncated()), pair(c.trunc_subsecs(0)));
        for days in [-2, -1, 0, 1, 2] {
            assert_eq!(own(t.plus_days(days)), pair(c + TimeDelta::days(days)), "{c} {days}");
        }
        for (j, (secs, nanos)) in parts.iter().enumerate() {
            let u = Time::new(*secs, *nanos).unwrap();
            let d: DateTime<Utc> = DateTime::from_timestamp(*secs, *nanos).unwrap();
            assert_eq!(t.earlier_than(&u), i < j);
            for days in [-1, 0, 1, 2] {
                assert_eq!(
                    t.within_days_of(&u.plus_days(days), days),
                    d + TimeDelta::days(days) - c < TimeDelta::days(days),
                    "{c} {d} {days}"
                );
            }
        }
    }
}
