use kre8ntemjs_core::error::FuzzError;
use kre8ntemjs_core::score::{
    add_capped, parse_number, score_matches, score_with_regex, scorer_from, strip_underscores,
    value_of_group,
};
use kre8ntemjs_core::Scorer;

fn chars(s: &str) -> Vec<char> {
    s.chars().collect()
}

fn groups(g: &[Option<&str>]) -> Vec<Option<String>> {
    g.iter().map(|x| x.map(|s| s.to_string())).collect()
}

#[test]
fn underscores_are_dropped() {
    let strip = |s: &str| -> String { strip_underscores(&chars(s)).iter().collect() };
    assert_eq!(strip("1_000_000"), "1000000");
    assert_eq!(strip("___"), "");
    assert_eq!(strip(""), "");
    assert_eq!(strip("a_b"), "ab");
}

#[test]
fn numbers_are_read_as_std_reads_them() {
    for s in [
        "0",
        "7",
        "42",
        "007",
        "+5",
        "+0",
        "18446744073709551615",
        "18446744073709551616",
        "99999999999999999999999",
        "",
        "+",
        "-1",
        "-0",
        "1a",
        "a1",
        " 1",
        "1 ",
        "++1",
        "1+",
        "٣",
        "1.5",
        "0x10",
        "18446744073709551609",
        "1844674407370955161",
    ] {
        assert_eq!(parse_number(&chars(s)), s.parse::<u64>().ok(), "{:?}", s);
    }
    assert_eq!(parse_number(&chars("18446744073709551615")), Some(u64::MAX));
    assert_eq!(parse_number(&chars("18446744073709551616")), None);
}

#[test]
fn capped_addition() {
    assert_eq!(add_capped(1, 2), 3);
    assert_eq!(add_capped(u64::MAX, 0), u64::MAX);
    assert_eq!(add_capped(u64::MAX, 1), u64::MAX);
    assert_eq!(add_capped(u64::MAX - 1, 1), u64::MAX);
    assert_eq!(add_capped(u64::MAX, u64::MAX), u64::MAX);
    assert_eq!(add_capped(0, 0), 0);
}

#[test]
fn value_of_one_group() {
    assert_eq!(value_of_group(&Some("1_000".to_string())), 1000);
    assert_eq!(value_of_group(&Some("abc".to_string())), 0);
    assert_eq!(value_of_group(&Some("".to_string())), 0);
    assert_eq!(value_of_group(&Some("_".to_string())), 0);
    assert_eq!(value_of_group(&None), 0);
}

#[test]
fn matches_add_up_without_group_zero() {
    let matches = vec![
        groups(&[Some("edges:50"), Some("50")]),
        groups(&[Some("7 8"), Some("7"), Some("8")]),
        groups(&[Some("99")]),
        groups(&[Some("x"), None, Some("1_0")]),
        groups(&[]),
    ];
    assert_eq!(score_matches(&matches), 50 + 7 + 8 + 10);
    assert_eq!(score_matches(&Vec::new()), 0);
    let big = vec![groups(&[Some(""), Some("18446744073709551615"), Some("1")])];
    assert_eq!(score_matches(&big), u64::MAX);
}

#[test]
fn score_of_both_streams() {
    let re = Scorer::compile(r"edges:(\d+)").unwrap();
    assert_eq!(score_with_regex("edges:50", "", &re), 50);
    assert_eq!(score_with_regex("edges:50 edges:7", "warn edges:3", &re), 60);
    assert_eq!(score_with_regex("nothing", "at all", &re), 0);
    assert_eq!(score_with_regex("edges:18446744073709551615", "edges:5", &re), u64::MAX);
    assert_eq!(score_with_regex("edges:99999999999999999999", "edges:5", &re), 5);
}

#[test]
fn score_with_several_groups_and_underscores() {
    let re = Scorer::compile(r"(\w+)/(\w+)").unwrap();
    assert_eq!(score_with_regex("1_000/24", "x/3 4/y", &re), 1000 + 24 + 3 + 4);
    let optional = Scorer::compile(r"a(\d+)|b(\d+)").unwrap();
    assert_eq!(score_with_regex("a1 b20", "b300", &optional), 321);
    let none = Scorer::compile(r"edges").unwrap();
    assert_eq!(score_with_regex("edges edges", "edges", &none), 0);
}

#[test]
fn scorer_from_a_pattern() {
    assert!(matches!(scorer_from(""), Ok(None)));
    match scorer_from(r"edges:(\d+)") {
        Ok(Some(re)) => {
            assert_eq!(score_with_regex("edges:12", "", &re), 12);
        }
        _ => panic!("a scorer"),
    }
    match scorer_from("edges:(") {
        Err(FuzzError::Other(words)) => assert!(!words.is_empty()),
        _ => panic!("an error"),
    }
    assert!(matches!(Scorer::compile("edges:("), Err(FuzzError::Other(_))));
    assert!(Scorer::compile("").is_ok());
}
