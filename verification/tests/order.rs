use csv_pg_schema::number::{number_less, read};
use csv_pg_schema::order::{before, text_set, TextMap, TextSet};
use csv_pg_schema::scalar::is_ymd;
use csv_pg_schema::text::{decimal_text, join, padded_left, padded_right, same, to_lowered};

fn words(items: &[&str]) -> Vec<String> {
    items.iter().map(|w| w.to_string()).collect()
}

#[test]
fn texts_are_ordered_lexically() {
    assert!(before("", "a") && before("a", "ab") && before("a10", "a2") && before("Z", "a"));
    assert!(before("z", "é") && !before("a", "a") && !before("b", "ab") && !before("", ""));
}

#[test]
fn sets_keep_each_text_once_and_in_order() {
    let mut set = TextSet::new();
    assert!(set.insert("b") && set.insert("a") && !set.insert("b") && set.insert("c"));
    assert_eq!(set.len(), 3);
    assert!(set.contains("a") && !set.contains("d"));
    assert_eq!(set.items, ["a", "b", "c"]);
    let other = text_set(&words(&["d", "b", "b"]));
    assert_eq!(set.difference(&other), ["a", "c"]);
    assert_eq!(other.difference(&set), ["d"]);
}

#[test]
fn maps_keep_the_last_value_of_a_key() {
    let mut map: TextMap<u8> = TextMap::new();
    map.insert("b", 1);
    map.insert("a", 2);
    map.insert("b", 3);
    assert_eq!((map.get("a"), map.get("b"), map.get("c")), (Some(&2), Some(&3), None));
    assert_eq!(map.len(), 2);
    assert_eq!(map.keys, ["a", "b"]);
}

#[test]
fn numbers_are_ordered_by_value() {
    let less = |a: &str, b: &str| number_less(&read(a).unwrap(), &read(b).unwrap());
    assert!(less("9", "10") && less("-10", "-9") && less("-1", "0") && less("0.1", "1e0"));
    assert!(less("1e2", "1000") && less("999e-3", "1") && less("0.09", "0.1"));
    assert!(less("99999999999999999999", "100000000000000000000"));
    assert!(!less("1.0", "1") && !less("1", "1.0") && !less("-0", "0") && !less("0", "-0"));
    assert!(!less("100", "1e2") && !less("1e2", "100"));
    assert!(less("1", "1e99999999999999999999") && less("1e-99999999999999999999", "1"));
    assert!(read("1.2.3").is_none());
}

#[test]
fn layouts() {
    assert_eq!(decimal_text(0), "0");
    assert_eq!(decimal_text(1_234_567_890_123), "1234567890123");
    assert_eq!(padded_left("ab", 4), "  ab");
    assert_eq!(padded_right("é", 3), "é  ");
    assert_eq!(padded_right("abcd", 3), "abcd");
    assert_eq!(join(&words(&["a", "", "c"]), ", "), "a, , c");
    assert_eq!(join(&[], ", "), "");
    assert_eq!(to_lowered("ÀBc1"), "Àbc1");
    assert!(same("é", "é") && !same("e", "é") && !same("ab", "a"));
}

#[test]
fn shapes_of_dates() {
    assert!(is_ymd("2024-13-99") && !is_ymd("2024-1-01") && !is_ymd("2024-01-011"));
    assert!(!is_ymd("2024-01+01") && !is_ymd("") && !is_ymd("２024-01-0"));
}
