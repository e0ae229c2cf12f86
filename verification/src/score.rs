//! Scores: the number that a scoring run of the engine reports.
//!
//! A scoring run prints its score somewhere in its output. An expression
//! supplied by the user finds it: every group of every match is read as a
//! number, and the numbers are added up.
use crate::error::FuzzError;
use crate::pattern::{capture_groups, captured, compile, compiles, pattern_of};
use crate::text::to_chars;
use regex::Regex;
use vstd::prelude::*;

verus! {

/// An expression that finds scores. It is made by `Scorer::compile` alone,
/// so it is the expression that `Regex::new` makes of its pattern.
#[derive(Debug)]
pub struct Scorer {
    re: Regex,
}

/// `s` without its underscores.
pub open spec fn without_underscores(s: Seq<char>) -> Seq<char>
    decreases s.len(),
{
    if s.len() == 0 {
        s
    } else if s.last() == '_' {
        without_underscores(s.drop_last())
    } else {
        without_underscores(s.drop_last()).push(s.last())
    }
}

/// Every character of `s` is a decimal digit.
pub open spec fn all_digits(s: Seq<char>) -> bool {
    forall|i: int| 0 <= i < s.len() ==> '0' <= #[trigger] s[i] <= '9'
}

/// The number that the digits of `s` write.
pub open spec fn digits_value(s: Seq<char>) -> nat
    decreases s.len(),
{
    if s.len() == 0 {
        0
    } else {
        digits_value(s.drop_last()) * 10 + (s.last() as nat - '0' as nat) as nat
    }
}

/// `s` without a leading plus sign.
pub open spec fn unsigned_part(s: Seq<char>) -> Seq<char> {
    if s.len() > 0 && s[0] == '+' {
        s.skip(1)
    } else {
        s
    }
}

/// The number that `s` writes: decimal digits, at least one, after an
/// optional plus sign, with a value that fits 64 bits. `None` for any other
/// text.
pub open spec fn parsed(s: Seq<char>) -> Option<u64> {
    let body = unsigned_part(s);
    if body.len() > 0 && all_digits(body) && digits_value(body) <= u64::MAX {
        Some(digits_value(body) as u64)
    } else {
        None
    }
}

/// What one group adds to the score: its number once the underscores are
/// dropped, or 0 where the group took no part or writes no number.
pub open spec fn group_value(group: Option<Seq<char>>) -> nat {
    match group {
        Some(text) => match parsed(without_underscores(text)) {
            Some(v) => v as nat,
            None => 0,
        },
        None => 0,
    }
}

/// What the groups of one match below index `upto` add, group 0 (the whole
/// match) left out.
pub open spec fn match_value(groups: Seq<Option<Seq<char>>>, upto: int) -> nat
    decreases upto,
{
    if upto <= 1 {
        0
    } else {
        match_value(groups, upto - 1) + group_value(groups[upto - 1])
    }
}

/// What all matches add.
pub open spec fn score_of(matches: Seq<Seq<Option<Seq<char>>>>) -> nat
    decreases matches.len(),
{
    if matches.len() == 0 {
        0
    } else {
        score_of(matches.drop_last()) + match_value(matches.last(), matches.last().len() as int)
    }
}

/// `n`, or the greatest 64-bit number where `n` exceeds it.
pub open spec fn capped(n: nat) -> u64 {
    if n > u64::MAX {
        u64::MAX
    } else {
        n as u64
    }
}

/// The digits of a longer numeral write no smaller a number.
pub proof fn lemma_digits_value_grows(s: Seq<char>, n: int)
    requires
        0 <= n <= s.len(),
        all_digits(s),
    ensures
        digits_value(s.take(n)) <= digits_value(s),
    decreases s.len() - n,
{
    if n < s.len() {
        lemma_digits_value_grows(s, n + 1);
        assert(s.take(n + 1).drop_last() == s.take(n));
    } else {
        assert(s.take(n) == s);
    }
}

/// Drops the underscores of `s`.
pub fn strip_underscores(s: &Vec<char>) -> (r: Vec<char>)
    ensures
        r@ == without_underscores(s@),
{
    let mut out: Vec<char> = Vec::new();
    let mut i: usize = 0;
    assert(s@.take(0) == Seq::<char>::empty());
    while i < s.len()
        invariant
            i <= s.len(),
            out@ == without_underscores(s@.take(i as int)),
        decreases s.len() - i,
    {
        assert(s@.take(i + 1).drop_last() == s@.take(i as int));
        if s[i] != '_' {
            out.push(s[i]);
        }
        i += 1;
    }
    assert(s@.take(s.len() as int) == s@);
    out
}

/// Reads `s` as a 64-bit number.
pub fn parse_number(s: &Vec<char>) -> (r: Option<u64>)
    ensures
        r == parsed(s@),
{
    let start: usize = if s.len() > 0 && s[0] == '+' {
        1
    } else {
        0
    };
    let ghost body = unsigned_part(s@);
    assert(body == s@.skip(start as int));
    if start == s.len() {
        return None;
    }
    let mut value: u64 = 0;
    let mut i: usize = start;
    assert(body.take(0) == Seq::<char>::empty());
    while i < s.len()
        invariant
            start <= i <= s.len(),
            body == s@.skip(start as int),
            body == unsigned_part(s@),
            all_digits(body.take(i - start)),
            value == digits_value(body.take(i - start)),
        decreases s.len() - i,
    {
        let c = s[i];
        let ghost upto = body.take(i - start + 1);
        assert(upto.drop_last() == body.take(i - start));
        assert(upto.last() == c);
        if !('0' <= c && c <= '9') {
            assert(!all_digits(body)) by {
                assert(body[i - start] == c);
            }
            return None;
        }
        let d: u64 = (c as u32 - '0' as u32) as u64;
        if value > (u64::MAX - d) / 10 {
            proof {
                assert(all_digits(body) ==> digits_value(upto) <= digits_value(body)) by {
                    if all_digits(body) {
                        lemma_digits_value_grows(body, i - start + 1);
                    }
                }
                assert(digits_value(upto) == value * 10 + d);
                assert(value * 10 + d > u64::MAX) by (nonlinear_arith)
                    requires
                        value > (u64::MAX - d) / 10,
                        0 <= d <= 9,
                ;
            }
            return None;
        }
        assert(value * 10 + d <= u64::MAX) by (nonlinear_arith)
            requires
                value <= (u64::MAX - d) / 10,
                0 <= d <= 9,
        ;
        value = value * 10 + d;
        assert(all_digits(upto)) by {
            assert forall|k: int| 0 <= k < upto.len() implies '0' <= #[trigger] upto[k] <= '9' by {
                if k < upto.len() - 1 {
                    assert(upto[k] == body.take(i - start)[k]);
                }
            }
        }
        i += 1;
    }
    assert(body.take(s.len() - start) == body);
    Some(value)
}

/// `a + b`, or the greatest 64-bit number where the sum exceeds it.
pub fn add_capped(a: u64, b: u64) -> (r: u64)
    ensures
        r == capped((a + b) as nat),
{
    if a > u64::MAX - b {
        u64::MAX
    } else {
        a + b
    }
}

/// What one group adds to the score.
pub fn value_of_group(group: &Option<String>) -> (r: u64)
    ensures
        r == group_value(group.deep_view()),
{
    match group {
        Some(text) => {
            let stripped = strip_underscores(&to_chars(text.as_str()));
            match parse_number(&stripped) {
                Some(v) => v,
                None => 0,
            }
        },
        None => 0,
    }
}

/// The score that the matches add up to, capped at the greatest 64-bit
/// number.
pub fn score_matches(matches: &Vec<Vec<Option<String>>>) -> (r: u64)
    ensures
        r == capped(score_of(matches.deep_view())),
{
    let mut sum: u64 = 0;
    let mut i: usize = 0;
    assert(matches.deep_view().take(0) == Seq::<Seq<Option<Seq<char>>>>::empty());
    while i < matches.len()
        invariant
            i <= matches.len(),
            sum == capped(score_of(matches.deep_view().take(i as int))),
        decreases matches.len() - i,
    {
        let ghost upto = matches.deep_view().take(i + 1);
        assert(upto.drop_last() == matches.deep_view().take(i as int));
        assert(upto.last() == matches@[i as int].deep_view());
        let groups = &matches[i];
        let ghost before = score_of(matches.deep_view().take(i as int));
        let mut j: usize = 1;
        while j < groups.len()
            invariant
                1 <= j,
                j <= groups.len() || j == 1,
                sum == capped(before + match_value(groups.deep_view(), j as int)),
            decreases groups.len() - j,
        {
            assert(groups.deep_view()[j as int] == groups@[j as int].deep_view());
            sum = add_capped(sum, value_of_group(&groups[j]));
            j += 1;
        }
        assert(groups.deep_view().len() == groups.len());
        assert(match_value(groups.deep_view(), j as int) == match_value(
            groups.deep_view(),
            groups.deep_view().len() as int,
        )) by {
            if j > groups.len() {
                assert(match_value(groups.deep_view(), 1) == 0);
                assert(match_value(groups.deep_view(), 0) == 0);
            }
        }
        i += 1;
    }
    assert(matches.deep_view().take(matches.len() as int) == matches.deep_view());
    sum
}

impl Scorer {
    /// The pattern that the expression was compiled from.
    pub closed spec fn pattern(&self) -> Seq<char> {
        pattern_of(self.re)
    }

    /// The expression of `pattern`. A pattern that does not compile is an
    /// error.
    pub fn compile(pattern: &str) -> (r: Result<Scorer, FuzzError>)
        ensures
            r is Ok <==> compiles(pattern@),
            r matches Ok(scorer) ==> scorer.pattern() == pattern@,
            r matches Err(e) ==> e is Other,
    {
        match compile(pattern) {
            Ok(re) => Ok(Scorer { re }),
            Err(_) => Err(FuzzError::Other("invalid score regex".to_owned())),
        }
    }
}

/// The score that the expression finds in the two streams of a run: what it
/// finds in `out` and what it finds in `err`, added up and capped at the
/// greatest 64-bit number.
pub fn score_with_regex(out: &str, err: &str, re: &Scorer) -> (r: u64)
    ensures
        r == capped(
            score_of(captured(re.pattern(), out@)) + score_of(captured(re.pattern(), err@)),
        ),
{
    let from_out = score_matches(&capture_groups(&re.re, out));
    let from_err = score_matches(&capture_groups(&re.re, err));
    add_capped(from_out, from_err)
}

/// The expression that finds the score, compiled from the user's pattern.
/// An empty pattern asks for no scoring; a pattern that does not compile is
/// an error.
pub fn scorer_from(pattern: &str) -> (r: Result<Option<Scorer>, FuzzError>)
    ensures
        pattern@.len() == 0 ==> r matches Ok(None),
        pattern@.len() > 0 && compiles(pattern@) ==> (r matches Ok(Some(scorer))
            && scorer.pattern() == pattern@),
        pattern@.len() > 0 && !compiles(pattern@) ==> r matches Err(FuzzError::Other(_)),
{
    if pattern.unicode_len() == 0 {
        return Ok(None);
    }
    match Scorer::compile(pattern) {
        Ok(scorer) => Ok(Some(scorer)),
        Err(e) => Err(e),
    }
}

} // verus!
