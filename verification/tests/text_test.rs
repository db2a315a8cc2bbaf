use patina_guest::filename::{file_stem, has_extension};
use patina_guest::schedule::{at_schedule, every_schedule, parse_every_secs};
use patina_guest::text::{
    chars_of, contains_text, count_text, decimal_text, join_texts, parse_unsigned, same_text,
};

fn strings(list: &[&str]) -> Vec<String> {
    list.iter().map(|s| s.to_string()).collect()
}

#[test]
fn decimals() {
    assert_eq!(decimal_text(0), "0");
    assert_eq!(decimal_text(9), "9");
    assert_eq!(decimal_text(10), "10");
    assert_eq!(decimal_text(1203), "1203");
    assert_eq!(decimal_text(u64::MAX), "18446744073709551615");
}

#[test]
fn unsigned_numerals() {
    let parse = |s: &str| {
        let chars = chars_of(s);
        parse_unsigned(&chars, 0, chars.len())
    };
    for s in [
        "0", "7", "+7", "007", "18446744073709551615", "18446744073709551616", "00018446744073709551615",
        "99999999999999999999999", "", "+", "-1", "++1", "1 ", " 1", "1a", "\u{0663}", "99999999999999999999x",
    ] {
        assert_eq!(parse(s), s.parse::<u64>().ok(), "{}", s);
    }
    let chars = chars_of("ab12cd");
    assert_eq!(parse_unsigned(&chars, 2, 4), Some(12));
    assert_eq!(parse_unsigned(&chars, 2, 2), None);
}

#[test]
fn every_round_trip() {
    for secs in [0, 2, 10, 59, 86400, u64::MAX] {
        assert_eq!(parse_every_secs(&every_schedule(secs)), Some(secs));
    }
    assert_eq!(every_schedule(7), "@every 7s");
}

#[test]
fn one_shots_have_no_period() {
    assert_eq!(at_schedule(2), "@at 1970-01-01T00:00:02Z");
    assert_eq!(at_schedule(20), "@at 1970-01-01T00:00:20Z");
    assert_eq!(at_schedule(120), "@at 1970-01-01T00:00:120Z");
    assert_eq!(parse_every_secs(&at_schedule(2)), None);
}

#[test]
fn malformed_periods() {
    assert_eq!(parse_every_secs("@every 5s"), Some(5));
    assert_eq!(parse_every_secs("@every +5s"), Some(5));
    for s in ["", "@every", "@every ", "@every s", "@every 5", "@every 5m", "@every  5s", "every 5s", "@every 5ss", "x@every 5s", "@every -5s"] {
        assert_eq!(parse_every_secs(s), None, "{}", s);
    }
}

#[test]
fn file_names_come_apart_as_paths_do() {
    for name in [
        "a.json", "a.b.json", ".json", "json", "a.", "..", ".", "a..json", "..json", ".a.tmp", "a.JSON", "\u{e9}.json",
        "", "a.tmp.json", "a.json.tmp",
    ] {
        let path = std::path::Path::new(name);
        for ext in ["json", "tmp", "", "b", "JSON"] {
            assert_eq!(
                has_extension(name, ext),
                path.extension().and_then(|e| e.to_str()) == Some(ext),
                "{} {}",
                name,
                ext
            );
        }
        if let Some(stem) = path.file_stem() {
            assert_eq!(file_stem(name), stem.to_str().unwrap(), "{}", name);
        }
    }
}

#[test]
fn names_split_where_they_were_joined() {
    assert_eq!(file_stem("msg.7.json"), "msg.7");
    assert!(has_extension("msg.7.json", "json"));
}

#[test]
fn lists_of_texts() {
    let list = strings(&["a", "b", "a"]);
    assert_eq!(count_text(&list, "a"), 2);
    assert_eq!(count_text(&list, "c"), 0);
    assert!(contains_text(&list, "b"));
    assert!(!contains_text(&list, "c"));
    assert_eq!(join_texts(&list, ", "), "a, b, a");
    assert_eq!(join_texts(&strings(&[]), ", "), "");
    assert_eq!(join_texts(&strings(&["x"]), ", "), "x");
    assert!(same_text("x", "x"));
    assert!(!same_text("x", "y"));
}
