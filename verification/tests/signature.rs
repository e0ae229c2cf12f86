use kre8ntemjs_core::signature::{
    crash_signature, digit_char, hex_digit_char, mask_hex_chars, mask_lines_chars, normalize,
};

fn hex(s: &str) -> String {
    mask_hex_chars(&s.chars().collect()).iter().collect()
}

fn lines(s: &str) -> String {
    mask_lines_chars(&s.chars().collect()).iter().collect()
}

fn by_expressions(s: &str) -> String {
    let re_hex = regex::Regex::new(r"0x[0-9a-fA-F]+").unwrap();
    let re_line = regex::Regex::new(r":\d+(:\d+)?").unwrap();
    let after_hex = re_hex.replace_all(s, "0xHEX");
    re_line.replace_all(&after_hex, ":LINE").into_owned()
}

#[test]
fn digits() {
    for c in '0'..='9' {
        assert!(digit_char(c));
        assert!(hex_digit_char(c));
    }
    for c in ['a', 'f', 'A', 'F', 'c', 'D'] {
        assert!(!digit_char(c));
        assert!(hex_digit_char(c));
    }
    for c in ['g', 'G', 'x', ':', ' ', '/', '@', '`', '٣'] {
        assert!(!digit_char(c));
        assert!(!hex_digit_char(c));
    }
}

#[test]
fn addresses_are_masked() {
    assert_eq!(hex("at 0xDEADBEEF."), "at 0xHEX.");
    assert_eq!(hex("0x1"), "0xHEX");
    assert_eq!(hex("0x"), "0x");
    assert_eq!(hex("0xg"), "0xg");
    assert_eq!(hex("0X1F"), "0X1F");
    assert_eq!(hex("0x10x2"), "0xHEXx2");
    assert_eq!(hex("00x1f g"), "00xHEX g");
    assert_eq!(hex("0x0x0x1"), "0xHEXx0xHEX");
    assert_eq!(hex("0xabcdefABCDEF0123456789z"), "0xHEXz");
    assert_eq!(hex(""), "");
    assert_eq!(hex("x0"), "x0");
}

#[test]
fn line_references_are_masked() {
    assert_eq!(lines("file.js:12"), "file.js:LINE");
    assert_eq!(lines("file.js:12:34"), "file.js:LINE");
    assert_eq!(lines("file.js:12:34:56"), "file.js:LINE:LINE");
    assert_eq!(lines("a:1:b"), "a:LINE:b");
    assert_eq!(lines("a:1: 2"), "a:LINE: 2");
    assert_eq!(lines("a::1"), "a::LINE");
    assert_eq!(lines(":"), ":");
    assert_eq!(lines(":x"), ":x");
    assert_eq!(lines(""), "");
    assert_eq!(lines("12:34"), "12:LINE");
    assert_eq!(lines(":1:2:3:4"), ":LINE:LINE");
}

#[test]
fn addresses_first_then_lines() {
    assert_eq!(normalize("at 0xDEADBEEF file.js:12:34"), "at 0xHEX file.js:LINE");
    assert_eq!(normalize(":0xAB"), ":LINExHEX");
    assert_eq!(normalize(":10xAB"), ":LINExHEX");
    assert_eq!(normalize("timeout"), "timeout");
    assert_eq!(normalize(""), "");
}

#[test]
fn masking_agrees_with_the_expressions() {
    for s in [
        "",
        "TypeError: x is not a function\n    at foo (/tmp/a.js:12:34)\n    at 0x7ffe1234abcd",
        "0x0x0x12:3:4:5:0x:6",
        ":::1:2::3:0xFFg0x",
        "Segmentation fault at address 0x0000000000000010 (pc=0xdeadbeef) :0",
        "a:1b:22c:333:4444:d",
        "0x:0x1:0x2:3",
        "x0x00x000x0000",
        "日本:12 é 0xÉ 0xe:9",
    ] {
        assert_eq!(normalize(s), by_expressions(s), "{:?}", s);
    }
}

#[test]
fn only_the_digits_from_0_to_9_are_digits() {
    assert_eq!(normalize("a.js:٣"), "a.js:٣");
    assert_eq!(by_expressions("a.js:٣"), "a.js:LINE");
    assert_eq!(normalize("a.js:1٣"), "a.js:LINE٣");
}

#[test]
fn signature_is_the_sha1_of_the_masked_text() {
    assert_eq!(crash_signature(""), "da39a3ee5e6b4b0d3255bfef95601890afd80709");
    assert_eq!(crash_signature("abc"), "a9993e364706816aba3e25717850c26c9cd0d89d");
    assert_eq!(
        crash_signature("The quick brown fox jumps over the lazy dog"),
        "2fd4e1c67a2d28fced849ee1bb76e7391b93eb12"
    );
    assert_eq!(crash_signature("0x1f"), crash_signature("0xHEX"));
    assert_ne!(crash_signature("0x1f"), crash_signature("0x1g"));
}

#[test]
fn signature_has_forty_hex_digits() {
    for s in ["", "timeout", "ReferenceError: foo is not defined", "日本"] {
        let sig = crash_signature(s);
        assert_eq!(sig.len(), 40);
        assert!(sig.chars().all(|c| c.is_ascii_digit() || ('a'..='f').contains(&c)));
    }
}

#[test]
fn signature_ignores_addresses() {
    let a = "crash at 0xDEADBEEF in foo";
    let b = "crash at 0xCAFEBABE in foo";
    let c = "crash at 0x1 in foo";
    assert_eq!(crash_signature(a), crash_signature(b));
    assert_eq!(crash_signature(a), crash_signature(c));
    assert_ne!(crash_signature(a), crash_signature("crash at 0xDEADBEEF in bar"));
}

#[test]
fn signature_ignores_line_numbers() {
    assert_eq!(crash_signature("a.js:123 boom"), crash_signature("a.js:7 boom"));
    assert_eq!(crash_signature("a.js:123:45 boom"), crash_signature("a.js:9:1 boom"));
    assert_eq!(crash_signature("a.js:123:45 boom"), crash_signature("a.js:9 boom"));
    assert_ne!(crash_signature("a.js:123 boom"), crash_signature("b.js:123 boom"));
}

#[test]
fn signature_of_runs_that_differ_in_address_and_line() {
    let first = "Error: bad state 0xABCD1234\n    at run (main.js:42)";
    let second = "Error: bad state 0xEEEE5678\n    at run (main.js:77)";
    assert_eq!(crash_signature(first), crash_signature(second));
}

#[test]
fn a_hex_literal_inside_another_is_not_masked_alone() {
    assert_ne!(crash_signature("0x10xAB"), crash_signature("0x10xCD"));
    assert_ne!(crash_signature("a:0xAB"), crash_signature("a:5xAB"));
}
