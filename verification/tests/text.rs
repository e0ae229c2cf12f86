use kre8ntemjs_core::text::{
    find, from_chars, join_with_newline, push_decimal, replace_all_chars, same_text,
    signed_numeral, splice_chars, split_on_newline, to_chars,
};

fn chars(s: &str) -> Vec<char> {
    s.chars().collect()
}

fn text(v: &[char]) -> String {
    v.iter().collect()
}

#[test]
fn chars_round_trip() {
    let s = "let é = \"日本\";\n";
    assert_eq!(to_chars(s), chars(s));
    assert_eq!(from_chars(&chars(s)), s);
    assert_eq!(to_chars("").len(), 0);
}

#[test]
fn find_gives_leftmost_occurrence() {
    assert_eq!(find(&chars("a<var>b<var>"), &chars("<var>")), Some(1));
    assert_eq!(find(&chars("<var>"), &chars("<var>")), Some(0));
    assert_eq!(find(&chars("<va"), &chars("<var>")), None);
    assert_eq!(find(&chars(""), &chars("x")), None);
    assert_eq!(find(&chars("abc"), &chars("")), Some(0));
    assert_eq!(find(&chars(""), &chars("")), Some(0));
    assert_eq!(find(&chars("aab"), &chars("ab")), Some(1));
}

#[test]
fn splice_replaces_the_given_range() {
    assert_eq!(text(&splice_chars(&chars("hello world"), 6, 11, &chars("there"))), "hello there");
    assert_eq!(text(&splice_chars(&chars("abc"), 1, 1, &chars("XY"))), "aXYbc");
    assert_eq!(text(&splice_chars(&chars("abc"), 0, 3, &chars(""))), "");
    assert_eq!(text(&splice_chars(&chars("abc"), 3, 3, &chars("d"))), "abcd");
}

#[test]
fn replace_all_is_left_to_right_without_overlap() {
    assert_eq!(text(&replace_all_chars(&chars("aaa"), &chars("aa"), &chars("b"))), "ba");
    assert_eq!(
        text(&replace_all_chars(&chars("x<var>y<var>"), &chars("<var>"), &chars("<integer>"))),
        "x<integer>y<integer>"
    );
    assert_eq!(text(&replace_all_chars(&chars("abc"), &chars(""), &chars("-"))), "abc");
    assert_eq!(text(&replace_all_chars(&chars("abc"), &chars("abcd"), &chars("-"))), "abc");
    assert_eq!(text(&replace_all_chars(&chars("abab"), &chars("ab"), &chars("ab"))), "abab");
}

#[test]
fn split_keeps_empty_pieces() {
    let pieces = |s: &str| -> Vec<String> {
        split_on_newline(&chars(s)).iter().map(|l| text(l)).collect()
    };
    assert_eq!(pieces(""), vec![""]);
    assert_eq!(pieces("a"), vec!["a"]);
    assert_eq!(pieces("a\n"), vec!["a", ""]);
    assert_eq!(pieces("\na"), vec!["", "a"]);
    assert_eq!(pieces("a\n\nb"), vec!["a", "", "b"]);
    assert_eq!(pieces("a\r\nb"), vec!["a\r", "b"]);
}

#[test]
fn join_undoes_split() {
    for s in ["", "a", "a\n", "\n", "a\nb\nc", "x\n\n\ny\n"] {
        let lines = split_on_newline(&chars(s));
        assert_eq!(text(&join_with_newline(&lines)), s);
    }
    assert_eq!(text(&join_with_newline(&Vec::new())), "");
    assert_eq!(text(&join_with_newline(&vec![chars("a"), chars("b")])), "a\nb");
}

#[test]
fn decimal_numerals() {
    let dec = |n: u64| -> String {
        let mut out = Vec::new();
        push_decimal(&mut out, n);
        text(&out)
    };
    assert_eq!(dec(0), "0");
    assert_eq!(dec(7), "7");
    assert_eq!(dec(10), "10");
    assert_eq!(dec(1234567890), "1234567890");
    assert_eq!(dec(u64::MAX), "18446744073709551615");
    assert_eq!(text(&signed_numeral(-10_000)), "-10000");
    assert_eq!(text(&signed_numeral(10_000)), "10000");
    assert_eq!(text(&signed_numeral(0)), "0");
    assert_eq!(text(&signed_numeral(-1)), "-1");
    assert_eq!(text(&signed_numeral(i64::MIN)), "-9223372036854775808");
    assert_eq!(text(&signed_numeral(i64::MAX)), "9223372036854775807");
}

#[test]
fn same_text_compares_characters() {
    assert!(same_text("abc", "abc"));
    assert!(!same_text("abc", "abd"));
    assert!(!same_text("abc", "ab"));
    assert!(!same_text("ab", "abc"));
    assert!(same_text("", ""));
    assert!(same_text("日本é", "日本é"));
    assert!(!same_text("日本é", "日本e"));
}
