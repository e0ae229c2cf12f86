//! Character sequences: searching, splicing, lines and decimal numerals.
//!
//! Every contract in this crate speaks of a string through its view, a
//! `Seq<char>`. The executable functions work on `Vec<char>` buffers and
//! convert at the edges.
use vstd::prelude::*;

verus! {

/// `String::push` appends one character to the end of the string.
pub assume_specification[ String::push ](s: &mut String, c: char)
    ensures
        final(s)@ == old(s)@.push(c),
;

/// `pat` stands in `s` at index `i`.
pub open spec fn occurs_at(s: Seq<char>, pat: Seq<char>, i: int) -> bool {
    0 <= i && i + pat.len() <= s.len() && s.subrange(i, i + pat.len()) == pat
}

/// `pat` stands somewhere in `s`.
pub open spec fn contains(s: Seq<char>, pat: Seq<char>) -> bool {
    exists|i: int| occurs_at(s, pat, i)
}

/// `i` is the leftmost index at which `pat` stands in `s`.
pub open spec fn first_occurrence(s: Seq<char>, pat: Seq<char>, i: int) -> bool {
    occurs_at(s, pat, i) && forall|j: int| 0 <= j < i ==> !occurs_at(s, pat, j)
}

/// `s` with the characters from `start` up to `end` replaced by `rep`.
pub open spec fn splice(s: Seq<char>, start: int, end: int, rep: Seq<char>) -> Seq<char> {
    s.take(start) + rep + s.skip(end)
}

/// `s` with every occurrence of `pat` replaced by `rep`, found from left to
/// right without overlap.
pub open spec fn replace_all(s: Seq<char>, pat: Seq<char>, rep: Seq<char>) -> Seq<char>
    decreases s.len(),
{
    if pat.len() == 0 || s.len() < pat.len() {
        s
    } else if s.take(pat.len() as int) == pat {
        rep + replace_all(s.skip(pat.len() as int), pat, rep)
    } else {
        seq![s[0]] + replace_all(s.skip(1), pat, rep)
    }
}

/// The pieces of `s` between its line feeds. There is always at least one
/// piece; a trailing line feed yields a last, empty piece.
pub open spec fn split_lines(s: Seq<char>) -> Seq<Seq<char>>
    decreases s.len(),
{
    if s.len() == 0 {
        seq![Seq::<char>::empty()]
    } else {
        let before = split_lines(s.drop_last());
        if s.last() == '\n' {
            before.push(Seq::<char>::empty())
        } else {
            before.drop_last().push(before.last().push(s.last()))
        }
    }
}

/// The lines joined by single line feeds.
pub open spec fn join_lines(lines: Seq<Seq<char>>) -> Seq<char>
    decreases lines.len(),
{
    if lines.len() == 0 {
        Seq::<char>::empty()
    } else if lines.len() == 1 {
        lines[0]
    } else {
        join_lines(lines.drop_last()) + seq!['\n'] + lines.last()
    }
}

/// The views of a vector of strings.
pub open spec fn views(lines: Seq<String>) -> Seq<Seq<char>> {
    lines.map_values(|l: String| l@)
}

/// The views of a vector of character buffers.
pub open spec fn buffers(lines: Seq<Vec<char>>) -> Seq<Seq<char>> {
    lines.map_values(|l: Vec<char>| l@)
}

/// The character that writes the digit `d`.
pub open spec fn digit_char(d: int) -> char {
    if d == 0 {
        '0'
    } else if d == 1 {
        '1'
    } else if d == 2 {
        '2'
    } else if d == 3 {
        '3'
    } else if d == 4 {
        '4'
    } else if d == 5 {
        '5'
    } else if d == 6 {
        '6'
    } else if d == 7 {
        '7'
    } else if d == 8 {
        '8'
    } else {
        '9'
    }
}

/// The decimal numeral of `n`, without leading zeros.
pub open spec fn decimal(n: nat) -> Seq<char>
    decreases n,
{
    if n < 10 {
        seq![digit_char(n as int)]
    } else {
        decimal(n / 10).push(digit_char((n % 10) as int))
    }
}

/// The decimal numeral of `v`, with a minus sign where it is negative.
pub open spec fn signed_decimal(v: int) -> Seq<char> {
    if v < 0 {
        seq!['-'] + decimal((-v) as nat)
    } else {
        decimal(v as nat)
    }
}

/// No character of `s` is `c`.
pub open spec fn free_of(s: Seq<char>, c: char) -> bool {
    forall|i: int| 0 <= i < s.len() ==> s[i] != c
}

/// Splitting never yields an empty list, and no piece holds a line feed.
pub proof fn lemma_split_lines_shape(s: Seq<char>)
    ensures
        split_lines(s).len() >= 1,
        forall|k: int|
            0 <= k < split_lines(s).len() ==> free_of(#[trigger] split_lines(s)[k], '\n'),
    decreases s.len(),
{
    if s.len() > 0 {
        lemma_split_lines_shape(s.drop_last());
    }
}

/// Joining the pieces of a split gives the text back.
pub proof fn lemma_join_split(s: Seq<char>)
    ensures
        join_lines(split_lines(s)) == s,
    decreases s.len(),
{
    if s.len() == 0 {
    } else {
        let t = s.drop_last();
        let before = split_lines(t);
        lemma_join_split(t);
        lemma_split_lines_shape(t);
        assert(s == t.push(s.last()));
        if s.last() == '\n' {
            let after = before.push(Seq::<char>::empty());
            assert(after.drop_last() == before);
            assert(join_lines(after) == join_lines(before) + seq!['\n'] + Seq::<char>::empty());
            assert(join_lines(after) == s);
        } else {
            let grown = before.last().push(s.last());
            let after = before.drop_last().push(grown);
            if before.len() == 1 {
                assert(join_lines(before) == before[0]);
                assert(join_lines(after) == grown);
            } else {
                assert(after.drop_last() == before.drop_last());
                assert(join_lines(after) == join_lines(before.drop_last()) + seq!['\n'] + grown);
                assert(join_lines(before) == join_lines(before.drop_last()) + seq!['\n']
                    + before.last());
                assert(join_lines(after) == join_lines(before).push(s.last()));
            }
            assert(join_lines(after) == s);
        }
    }
}

/// The characters of a string slice.
pub fn to_chars(s: &str) -> (v: Vec<char>)
    ensures
        v@ == s@,
{
    let mut v: Vec<char> = Vec::new();
    for c in it: s.chars()
        invariant
            v@ == it.seq().take(it.index() as int),
            it.seq() == s@,
    {
        v.push(c);
    }
    v
}

/// The string that holds the characters of `v`.
pub fn from_chars(v: &Vec<char>) -> (s: String)
    ensures
        s@ == v@,
{
    let mut s = String::new();
    let mut i: usize = 0;
    while i < v.len()
        invariant
            i <= v.len(),
            s@ == v@.take(i as int),
        decreases v.len() - i,
    {
        s.push(v[i]);
        i += 1;
    }
    assert(v@.take(v.len() as int) == v@);
    s
}

/// Whether `pat` stands in `s` at index `i`.
pub fn matches_at(s: &Vec<char>, pat: &Vec<char>, i: usize) -> (b: bool)
    ensures
        b == occurs_at(s@, pat@, i as int),
{
    if pat.len() > s.len() || i > s.len() - pat.len() {
        return false;
    }
    let mut k: usize = 0;
    while k < pat.len()
        invariant
            k <= pat.len(),
            i + pat.len() <= s.len(),
            forall|j: int| 0 <= j < k ==> s@[i + j] == pat@[j],
        decreases pat.len() - k,
    {
        if s[i + k] != pat[k] {
            proof {
                let sub = s@.subrange(i as int, i + pat.len());
                assert(sub[k as int] == s@[i + k]);
            }
            return false;
        }
        k += 1;
    }
    assert(s@.subrange(i as int, i + pat.len()) =~= pat@);
    true
}

/// The leftmost index at which `pat` stands in `s`, if it does.
pub fn find(s: &Vec<char>, pat: &Vec<char>) -> (r: Option<usize>)
    ensures
        match r {
            Some(i) => first_occurrence(s@, pat@, i as int),
            None => !contains(s@, pat@),
        },
{
    let mut i: usize = 0;
    while i < s.len()
        invariant
            i <= s.len(),
            forall|j: int| 0 <= j < i ==> !occurs_at(s@, pat@, j),
        decreases s.len() - i,
    {
        if matches_at(s, pat, i) {
            return Some(i);
        }
        i += 1;
    }
    if matches_at(s, pat, i) {
        return Some(i);
    }
    None
}

/// `s` with the characters from `start` up to `end` replaced by `rep`.
pub fn splice_chars(s: &Vec<char>, start: usize, end: usize, rep: &Vec<char>) -> (r: Vec<char>)
    requires
        start <= end <= s.len(),
    ensures
        r@ == splice(s@, start as int, end as int, rep@),
{
    let mut r: Vec<char> = Vec::new();
    let mut i: usize = 0;
    while i < start
        invariant
            i <= start <= s.len(),
            r@ == s@.take(i as int),
        decreases start - i,
    {
        r.push(s[i]);
        i += 1;
    }
    let mut k: usize = 0;
    while k < rep.len()
        invariant
            k <= rep.len(),
            r@ == s@.take(start as int) + rep@.take(k as int),
        decreases rep.len() - k,
    {
        r.push(rep[k]);
        k += 1;
    }
    assert(rep@.take(rep.len() as int) == rep@);
    let mut j: usize = end;
    while j < s.len()
        invariant
            end <= j <= s.len(),
            r@ == s@.take(start as int) + rep@ + s@.subrange(end as int, j as int),
        decreases s.len() - j,
    {
        r.push(s[j]);
        j += 1;
    }
    assert(s@.subrange(end as int, s.len() as int) == s@.skip(end as int));
    r
}

/// `s` with every occurrence of `pat` replaced by `rep`, found from left to
/// right without overlap. An empty `pat` occurs nowhere.
pub fn replace_all_chars(s: &Vec<char>, pat: &Vec<char>, rep: &Vec<char>) -> (r: Vec<char>)
    ensures
        r@ == replace_all(s@, pat@, rep@),
{
    let mut r: Vec<char> = Vec::new();
    let mut i: usize = 0;
    assert(s@.skip(0) == s@);
    while i < s.len()
        invariant
            i <= s.len(),
            replace_all(s@, pat@, rep@) == r@ + replace_all(s@.skip(i as int), pat@, rep@),
        decreases s.len() - i,
    {
        let ghost rest = s@.skip(i as int);
        if pat.len() > 0 && matches_at(s, pat, i) {
            assert(rest.take(pat.len() as int) == s@.subrange(i as int, i + pat.len()));
            assert(rest.skip(pat.len() as int) == s@.skip(i + pat.len()));
            let mut k: usize = 0;
            let ghost before = r@;
            while k < rep.len()
                invariant
                    k <= rep.len(),
                    r@ == before + rep@.take(k as int),
                decreases rep.len() - k,
            {
                r.push(rep[k]);
                k += 1;
            }
            assert(rep@.take(rep.len() as int) == rep@);
            i += pat.len();
        } else {
            proof {
                if pat.len() > 0 && rest.len() >= pat.len() {
                    assert(rest.take(pat.len() as int) == s@.subrange(i as int, i + pat.len()));
                }
                assert(rest.skip(1) == s@.skip(i + 1));
                if pat.len() == 0 || rest.len() < pat.len() {
                    lemma_replace_all_inert(rest, pat@, rep@);
                    lemma_replace_all_inert(rest.skip(1), pat@, rep@);
                    assert(rest == seq![rest[0]] + rest.skip(1));
                }
            }
            r.push(s[i]);
            i += 1;
        }
    }
    assert(s@.skip(s.len() as int) == Seq::<char>::empty());
    r
}

/// Where `pat` is empty or longer than `s`, nothing is replaced.
pub proof fn lemma_replace_all_inert(s: Seq<char>, pat: Seq<char>, rep: Seq<char>)
    requires
        pat.len() == 0 || s.len() < pat.len(),
    ensures
        replace_all(s, pat, rep) == s,
{
}

/// The pieces of `s` between its line feeds.
pub fn split_on_newline(s: &Vec<char>) -> (lines: Vec<Vec<char>>)
    ensures
        buffers(lines@) == split_lines(s@),
        lines.len() >= 1,
{
    let mut lines: Vec<Vec<char>> = Vec::new();
    let mut cur: Vec<char> = Vec::new();
    let mut i: usize = 0;
    assert(s@.take(0) == Seq::<char>::empty());
    while i < s.len()
        invariant
            i <= s.len(),
            buffers(lines@).push(cur@) == split_lines(s@.take(i as int)),
        decreases s.len() - i,
    {
        let ghost prefix = s@.take(i + 1);
        assert(prefix.drop_last() == s@.take(i as int));
        assert(prefix.last() == s@[i as int]);
        let ghost done = buffers(lines@);
        let ghost before = done.push(cur@);
        assert(before.drop_last() == done);
        if s[i] == '\n' {
            lines.push(cur);
            cur = Vec::new();
            assert(buffers(lines@) == before);
        } else {
            cur.push(s[i]);
        }
        i += 1;
    }
    assert(s@.take(s.len() as int) == s@);
    let ghost done = buffers(lines@);
    lines.push(cur);
    assert(buffers(lines@) == done.push(cur@));
    lines
}

/// The lines joined by single line feeds.
pub fn join_with_newline(lines: &Vec<Vec<char>>) -> (r: Vec<char>)
    ensures
        r@ == join_lines(buffers(lines@)),
{
    let mut r: Vec<char> = Vec::new();
    let mut i: usize = 0;
    assert(buffers(lines@).take(0) == Seq::<Seq<char>>::empty());
    while i < lines.len()
        invariant
            i <= lines.len(),
            r@ == join_lines(buffers(lines@).take(i as int)),
        decreases lines.len() - i,
    {
        let ghost upto = buffers(lines@).take(i + 1);
        assert(upto.drop_last() == buffers(lines@).take(i as int));
        assert(upto.last() == lines@[i as int]@);
        if i > 0 {
            r.push('\n');
        }
        let line = &lines[i];
        let ghost base = r@;
        let mut k: usize = 0;
        while k < line.len()
            invariant
                k <= line.len(),
                r@ == base + line@.take(k as int),
            decreases line.len() - k,
        {
            r.push(line[k]);
            k += 1;
        }
        assert(line@.take(line.len() as int) == line@);
        proof {
            if i == 0 {
                assert(base == Seq::<char>::empty());
                assert(r@ == line@);
            }
        }
        i += 1;
    }
    assert(buffers(lines@).take(lines.len() as int) == buffers(lines@));
    r
}

/// The character that writes the digit `d`.
pub fn digit(d: u8) -> (c: char)
    requires
        d < 10,
    ensures
        c == digit_char(d as int),
{
    if d == 0 {
        '0'
    } else if d == 1 {
        '1'
    } else if d == 2 {
        '2'
    } else if d == 3 {
        '3'
    } else if d == 4 {
        '4'
    } else if d == 5 {
        '5'
    } else if d == 6 {
        '6'
    } else if d == 7 {
        '7'
    } else if d == 8 {
        '8'
    } else {
        '9'
    }
}

/// Appends the decimal numeral of `n` to `out`.
pub fn push_decimal(out: &mut Vec<char>, n: u64)
    ensures
        final(out)@ == old(out)@ + decimal(n as nat),
    decreases n,
{
    if n >= 10 {
        push_decimal(out, n / 10);
    }
    let d: u8 = (n % 10) as u8;
    out.push(digit(d));
}

/// Appends the characters of `extra` to `out`.
pub fn push_chars(out: &mut Vec<char>, extra: &Vec<char>)
    ensures
        final(out)@ == old(out)@ + extra@,
{
    let mut k: usize = 0;
    while k < extra.len()
        invariant
            k <= extra.len(),
            out@ == old(out)@ + extra@.take(k as int),
        decreases extra.len() - k,
    {
        out.push(extra[k]);
        k += 1;
    }
    assert(extra@.take(extra.len() as int) == extra@);
}

/// Appends the characters of the string slice `extra` to `out`.
pub fn push_str(out: &mut Vec<char>, extra: &str)
    ensures
        final(out)@ == old(out)@ + extra@,
{
    let chars = to_chars(extra);
    push_chars(out, &chars);
}

/// Whether two string slices hold the same characters.
pub fn same_text(a: &str, b: &str) -> (r: bool)
    ensures
        r == (a@ == b@),
{
    let x = to_chars(a);
    let y = to_chars(b);
    if x.len() != y.len() {
        return false;
    }
    let mut i: usize = 0;
    while i < x.len()
        invariant
            i <= x.len(),
            x.len() == y.len(),
            x@ == a@,
            y@ == b@,
            forall|j: int| 0 <= j < i ==> x@[j] == y@[j],
        decreases x.len() - i,
    {
        if x[i] != y[i] {
            assert(a@[i as int] != b@[i as int]);
            return false;
        }
        i += 1;
    }
    assert(x@ =~= y@);
    true
}

/// How often `c` stands in `s`.
pub open spec fn count_char(s: Seq<char>, c: char) -> nat
    decreases s.len(),
{
    if s.len() == 0 {
        0
    } else {
        count_char(s.drop_last(), c) + if s.last() == c {
            1nat
        } else {
            0nat
        }
    }
}

/// Counting distributes over concatenation.
pub proof fn lemma_count_concat(a: Seq<char>, b: Seq<char>, c: char)
    ensures
        count_char(a + b, c) == count_char(a, c) + count_char(b, c),
    decreases b.len(),
{
    if b.len() == 0 {
        assert(a + b == a);
    } else {
        lemma_count_concat(a, b.drop_last(), c);
        assert((a + b).drop_last() == a + b.drop_last());
    }
}

/// A character that occurs is counted.
pub proof fn lemma_count_present(s: Seq<char>, c: char, i: int)
    requires
        0 <= i < s.len(),
        s[i] == c,
    ensures
        count_char(s, c) >= 1,
    decreases s.len(),
{
    if i < s.len() - 1 {
        lemma_count_present(s.drop_last(), c, i);
    }
}

/// A character that does not occur counts 0.
pub proof fn lemma_count_absent(s: Seq<char>, c: char)
    requires
        free_of(s, c),
    ensures
        count_char(s, c) == 0,
    decreases s.len(),
{
    if s.len() > 0 {
        lemma_count_absent(s.drop_last(), c);
    }
}

/// Replacing an occurrence of a pattern that holds `c` by a text that does
/// not lowers the count of `c`.
pub proof fn lemma_splice_lowers_count(
    s: Seq<char>,
    pat: Seq<char>,
    i: int,
    rep: Seq<char>,
    c: char,
)
    requires
        occurs_at(s, pat, i),
        count_char(pat, c) >= 1,
        free_of(rep, c),
    ensures
        count_char(splice(s, i, i + pat.len(), rep), c) < count_char(s, c),
{
    let head = s.take(i);
    let tail = s.skip(i + pat.len());
    assert(s == head + pat + tail);
    lemma_count_concat(head + pat, tail, c);
    lemma_count_concat(head, pat, c);
    lemma_count_concat(head + rep, tail, c);
    lemma_count_concat(head, rep, c);
    lemma_count_absent(rep, c);
}

/// A decimal numeral is made of digits.
pub proof fn lemma_decimal_digits(n: nat)
    ensures
        decimal(n).len() >= 1,
        forall|i: int| 0 <= i < decimal(n).len() ==> '0' <= #[trigger] decimal(n)[i] <= '9',
    decreases n,
{
    if n >= 10 {
        lemma_decimal_digits(n / 10);
    }
}

/// Whether `c` stands nowhere in `s`.
pub fn lacks(s: &Vec<char>, c: char) -> (b: bool)
    ensures
        b == free_of(s@, c),
{
    let mut i: usize = 0;
    while i < s.len()
        invariant
            i <= s.len(),
            forall|j: int| 0 <= j < i ==> s@[j] != c,
        decreases s.len() - i,
    {
        if s[i] == c {
            return false;
        }
        i += 1;
    }
    true
}

/// The decimal numeral of `v`, with a minus sign where it is negative.
pub fn signed_numeral(v: i64) -> (r: Vec<char>)
    ensures
        r@ == signed_decimal(v as int),
{
    let mut out: Vec<char> = Vec::new();
    if v < 0 {
        out.push('-');
        let magnitude: u64 = if v == i64::MIN {
            9223372036854775808u64
        } else {
            (-v) as u64
        };
        push_decimal(&mut out, magnitude);
    } else {
        push_decimal(&mut out, v as u64);
    }
    out
}


/// A text without line feeds is one line.
pub proof fn lemma_split_single(line: Seq<char>)
    requires
        free_of(line, '\n'),
    ensures
        split_lines(line) == seq![line],
    decreases line.len(),
{
    if line.len() == 0 {
        assert(line == Seq::<char>::empty());
    } else {
        let shorter = line.drop_last();
        lemma_split_single(shorter);
        let before = split_lines(shorter);
        assert(before == seq![shorter]);
        assert(before.drop_last() == Seq::<Seq<char>>::empty());
        assert(before.last() == shorter);
        assert(shorter.push(line.last()) == line);
        assert(Seq::<Seq<char>>::empty().push(line) =~= seq![line]);
    }
}

/// A text, a line feed and a line without line feeds: the lines of the
/// text, and that line.
pub proof fn lemma_split_append_line(text: Seq<char>, line: Seq<char>)
    requires
        free_of(line, '\n'),
    ensures
        split_lines(text + seq!['\n'] + line) == split_lines(text).push(line),
    decreases line.len(),
{
    let whole = text + seq!['\n'] + line;
    if line.len() == 0 {
        assert(whole.drop_last() == text);
        assert(line == Seq::<char>::empty());
    } else {
        let shorter = line.drop_last();
        lemma_split_append_line(text, shorter);
        assert(whole.drop_last() == text + seq!['\n'] + shorter);
        assert(whole.last() == line.last());
        let before = split_lines(text).push(shorter);
        assert(before.drop_last() == split_lines(text));
        assert(shorter.push(line.last()) == line);
    }
}

/// Splitting what was joined gives the lines back, where there is at least
/// one line and none holds a line feed.
pub proof fn lemma_split_join(lines: Seq<Seq<char>>)
    requires
        lines.len() >= 1,
        forall|k: int| 0 <= k < lines.len() ==> free_of(#[trigger] lines[k], '\n'),
    ensures
        split_lines(join_lines(lines)) == lines,
    decreases lines.len(),
{
    if lines.len() == 1 {
        lemma_split_single(lines[0]);
        assert(lines =~= seq![lines[0]]);
    } else {
        lemma_split_join(lines.drop_last());
        lemma_split_append_line(join_lines(lines.drop_last()), lines.last());
        assert(lines.drop_last().push(lines.last()) == lines);
    }
}

} // verus!
