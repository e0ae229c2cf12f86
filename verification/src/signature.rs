//! Signatures: a stable name for a class of failures.
//!
//! What an engine writes about a failure differs from run to run in its
//! addresses and line numbers. Both are masked before the text is hashed.
use crate::text::{from_chars, push_str, to_chars};
use sha1::{Digest, Sha1};
use vstd::prelude::*;

verus! {

/// The SHA-1 digest of the UTF-8 encoding of `text`, in lower-case
/// hexadecimal digits.
pub uninterp spec fn sha1_hex(text: Seq<char>) -> Seq<char>;

/// `Sha1::new`, `update` and `finalize` on the bytes of `text`, the digest
/// written with `{:x}`. The digest has 20 bytes, so the result has 40
/// characters.
#[verifier::external_body]
fn digest_hex(text: &str) -> (r: String)
    ensures
        r@ == sha1_hex(text@),
        r@.len() == 40,
{
    let mut hasher = Sha1::new();
    hasher.update(text.as_bytes());
    format!("{:x}", hasher.finalize())
}

/// `c` is a decimal digit.
pub open spec fn is_digit(c: char) -> bool {
    '0' <= c <= '9'
}

/// `c` is a hexadecimal digit, in either case.
pub open spec fn is_hex_digit(c: char) -> bool {
    ('0' <= c <= '9') || ('a' <= c <= 'f') || ('A' <= c <= 'F')
}

/// What stands for an address.
pub open spec fn hex_mask() -> Seq<char> {
    "0xHEX"@
}

/// What stands for a line reference.
pub open spec fn line_mask() -> Seq<char> {
    ":LINE"@
}

/// `c` is a digit of the class: hexadecimal where `hex` is set, decimal
/// where it is not.
pub open spec fn in_class(c: char, hex: bool) -> bool {
    if hex {
        is_hex_digit(c)
    } else {
        is_digit(c)
    }
}

/// The number of digits of the class that `s` begins with.
pub open spec fn class_run(s: Seq<char>, hex: bool) -> nat
    decreases s.len(),
{
    if s.len() > 0 && in_class(s[0], hex) {
        1 + class_run(s.skip(1), hex)
    } else {
        0
    }
}

/// The number of hexadecimal digits that `s` begins with.
pub open spec fn hex_run(s: Seq<char>) -> nat {
    class_run(s, true)
}

/// The number of decimal digits that `s` begins with.
pub open spec fn digit_run(s: Seq<char>) -> nat {
    class_run(s, false)
}

/// The length of the address that `s` begins with: `0x` and all the
/// hexadecimal digits that follow, at least one. 0 where `s` begins with
/// none.
pub open spec fn hex_match(s: Seq<char>) -> nat {
    if s.len() >= 3 && s[0] == '0' && s[1] == 'x' && is_hex_digit(s[2]) {
        2 + hex_run(s.skip(2))
    } else {
        0
    }
}

/// The length of the line reference that `s` begins with: a colon and all
/// the digits that follow, at least one, and then, where there is one, a
/// second colon with its digits. 0 where `s` begins with none.
pub open spec fn line_match(s: Seq<char>) -> nat {
    if s.len() >= 2 && s[0] == ':' && is_digit(s[1]) {
        let first = 1 + digit_run(s.skip(1));
        let rest = s.skip(first as int);
        if rest.len() >= 2 && rest[0] == ':' && is_digit(rest[1]) {
            first + 1 + digit_run(rest.skip(1))
        } else {
            first
        }
    } else {
        0
    }
}

/// `s` with every address replaced by `0xHEX`, found from left to right.
pub open spec fn mask_hex(s: Seq<char>) -> Seq<char>
    decreases s.len(),
{
    if s.len() == 0 {
        s
    } else if 0 < hex_match(s) <= s.len() {
        hex_mask() + mask_hex(s.skip(hex_match(s) as int))
    } else {
        seq![s[0]] + mask_hex(s.skip(1))
    }
}

/// `s` with every line reference replaced by `:LINE`, found from left to
/// right.
pub open spec fn mask_lines(s: Seq<char>) -> Seq<char>
    decreases s.len(),
{
    if s.len() == 0 {
        s
    } else if 0 < line_match(s) <= s.len() {
        line_mask() + mask_lines(s.skip(line_match(s) as int))
    } else {
        seq![s[0]] + mask_lines(s.skip(1))
    }
}

/// The text that is hashed: addresses masked first, then line references.
pub open spec fn normalized(stderr: Seq<char>) -> Seq<char> {
    mask_lines(mask_hex(stderr))
}

/// The signature of an error text.
pub open spec fn signature_of(stderr: Seq<char>) -> Seq<char> {
    sha1_hex(normalized(stderr))
}

/// A run of digits ends within the text.
pub proof fn lemma_run_bound(s: Seq<char>, hex: bool)
    ensures
        class_run(s, hex) <= s.len(),
    decreases s.len(),
{
    if s.len() > 0 && in_class(s[0], hex) {
        lemma_run_bound(s.skip(1), hex);
    }
}

/// An address ends within the text.
pub proof fn lemma_hex_match_bound(s: Seq<char>)
    ensures
        hex_match(s) <= s.len(),
{
    if s.len() >= 2 {
        lemma_run_bound(s.skip(2), true);
    }
}

/// A line reference ends within the text.
pub proof fn lemma_line_match_bound(s: Seq<char>)
    ensures
        line_match(s) <= s.len(),
{
    if s.len() >= 2 && s[0] == ':' && is_digit(s[1]) {
        lemma_run_bound(s.skip(1), false);
        let first = 1 + digit_run(s.skip(1));
        let rest = s.skip(first as int);
        if rest.len() >= 2 {
            lemma_run_bound(rest.skip(1), false);
        }
    }
}

/// Whether `c` is a decimal digit.
pub fn digit_char(c: char) -> (b: bool)
    ensures
        b == is_digit(c),
{
    '0' <= c && c <= '9'
}

/// Whether `c` is a hexadecimal digit.
pub fn hex_digit_char(c: char) -> (b: bool)
    ensures
        b == is_hex_digit(c),
{
    ('0' <= c && c <= '9') || ('a' <= c && c <= 'f') || ('A' <= c && c <= 'F')
}

/// The index just past the hexadecimal digits that start at `from`.
fn end_of_hex_run(s: &Vec<char>, from: usize) -> (end: usize)
    requires
        from <= s.len(),
    ensures
        from <= end <= s.len(),
        end - from == hex_run(s@.skip(from as int)),
{
    let mut end: usize = from;
    while end < s.len() && hex_digit_char(s[end])
        invariant
            from <= end <= s.len(),
            hex_run(s@.skip(from as int)) == (end - from) + hex_run(s@.skip(end as int)),
        decreases s.len() - end,
    {
        assert(s@.skip(end as int).skip(1) == s@.skip(end + 1));
        end += 1;
    }
    end
}

/// The index just past the decimal digits that start at `from`.
fn end_of_digit_run(s: &Vec<char>, from: usize) -> (end: usize)
    requires
        from <= s.len(),
    ensures
        from <= end <= s.len(),
        end - from == digit_run(s@.skip(from as int)),
{
    let mut end: usize = from;
    while end < s.len() && digit_char(s[end])
        invariant
            from <= end <= s.len(),
            digit_run(s@.skip(from as int)) == (end - from) + digit_run(s@.skip(end as int)),
        decreases s.len() - end,
    {
        assert(s@.skip(end as int).skip(1) == s@.skip(end + 1));
        end += 1;
    }
    end
}

/// The length of the address that starts at `at`, 0 where none does.
fn hex_match_at(s: &Vec<char>, at: usize) -> (n: usize)
    requires
        at < s.len(),
    ensures
        n == hex_match(s@.skip(at as int)),
        at + n <= s.len(),
{
    let ghost rest = s@.skip(at as int);
    if s.len() - at >= 3 && s[at] == '0' && s[at + 1] == 'x' && hex_digit_char(s[at + 2]) {
        assert(rest.skip(2) == s@.skip(at + 2));
        let end = end_of_hex_run(s, at + 2);
        end - at
    } else {
        0
    }
}

/// The length of the line reference that starts at `at`, 0 where none does.
fn line_match_at(s: &Vec<char>, at: usize) -> (n: usize)
    requires
        at < s.len(),
    ensures
        n == line_match(s@.skip(at as int)),
        at + n <= s.len(),
{
    let ghost rest = s@.skip(at as int);
    if s.len() - at >= 2 && s[at] == ':' && digit_char(s[at + 1]) {
        assert(rest.skip(1) == s@.skip(at + 1));
        let first_end = end_of_digit_run(s, at + 1);
        let ghost first = first_end - at;
        assert(rest.skip(first as int) == s@.skip(first_end as int));
        if s.len() - first_end >= 2 && s[first_end] == ':' && digit_char(s[first_end + 1]) {
            assert(s@.skip(first_end as int).skip(1) == s@.skip(first_end + 1));
            let second_end = end_of_digit_run(s, first_end + 1);
            second_end - at
        } else {
            first_end - at
        }
    } else {
        0
    }
}

/// Replaces every address by `0xHEX`.
pub fn mask_hex_chars(s: &Vec<char>) -> (r: Vec<char>)
    ensures
        r@ == mask_hex(s@),
{
    let mut out: Vec<char> = Vec::new();
    let mut i: usize = 0;
    assert(s@.skip(0) == s@);
    while i < s.len()
        invariant
            i <= s.len(),
            mask_hex(s@) == out@ + mask_hex(s@.skip(i as int)),
        decreases s.len() - i,
    {
        let ghost rest = s@.skip(i as int);
        let n = hex_match_at(s, i);
        if n > 0 {
            assert(rest.skip(n as int) == s@.skip(i + n));
            push_str(&mut out, "0xHEX");
            i += n;
        } else {
            assert(rest.skip(1) == s@.skip(i + 1));
            out.push(s[i]);
            i += 1;
        }
    }
    assert(s@.skip(s.len() as int) == Seq::<char>::empty());
    out
}

/// Replaces every line reference by `:LINE`.
pub fn mask_lines_chars(s: &Vec<char>) -> (r: Vec<char>)
    ensures
        r@ == mask_lines(s@),
{
    let mut out: Vec<char> = Vec::new();
    let mut i: usize = 0;
    assert(s@.skip(0) == s@);
    while i < s.len()
        invariant
            i <= s.len(),
            mask_lines(s@) == out@ + mask_lines(s@.skip(i as int)),
        decreases s.len() - i,
    {
        let ghost rest = s@.skip(i as int);
        let n = line_match_at(s, i);
        if n > 0 {
            assert(rest.skip(n as int) == s@.skip(i + n));
            push_str(&mut out, ":LINE");
            i += n;
        } else {
            assert(rest.skip(1) == s@.skip(i + 1));
            out.push(s[i]);
            i += 1;
        }
    }
    assert(s@.skip(s.len() as int) == Seq::<char>::empty());
    out
}

/// The error text with its addresses and line references masked.
pub fn normalize(stderr: &str) -> (r: String)
    ensures
        r@ == normalized(stderr@),
{
    let s = to_chars(stderr);
    let masked = mask_hex_chars(&s);
    let out = mask_lines_chars(&masked);
    from_chars(&out)
}

/// The signature of an error text: the SHA-1 digest, in 40 hexadecimal
/// digits, of the text with its addresses and line references masked.
pub fn crash_signature(stderr: &str) -> (r: String)
    ensures
        r@ == signature_of(stderr@),
        r@.len() == 40,
{
    let text = normalize(stderr);
    digest_hex(text.as_str())
}

} // verus!
