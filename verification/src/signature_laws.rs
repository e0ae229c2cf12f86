//! What a signature does not depend on: the digits of an address, and the
//! digits of a line reference.
use crate::signature::{
    class_run, digit_run, hex_mask, hex_match, hex_run, in_class, is_digit, is_hex_digit,
    lemma_hex_match_bound, lemma_line_match_bound, lemma_run_bound, line_mask, line_match,
    mask_hex, mask_lines, normalized, signature_of,
};
use vstd::prelude::*;

verus! {

/// Every character of `s` is a digit of the class.
pub open spec fn all_in_class(s: Seq<char>, hex: bool) -> bool {
    forall|i: int| 0 <= i < s.len() ==> in_class(#[trigger] s[i], hex)
}

/// The scan for addresses in `s` comes by index `k`: it begins there to look
/// for the next address, having found none that reaches across.
pub open spec fn hex_scan_stops_at(s: Seq<char>, k: int) -> bool
    decreases s.len(),
{
    if k == 0 {
        true
    } else if k < 0 || s.len() == 0 {
        false
    } else if 0 < hex_match(s) <= s.len() {
        hex_scan_stops_at(s.skip(hex_match(s) as int), k - hex_match(s))
    } else {
        hex_scan_stops_at(s.skip(1), k - 1)
    }
}

/// `s` begins with an `x` and a hexadecimal digit: with what would end an
/// address that a preceding `0` begins.
pub open spec fn begins_address_tail(s: Seq<char>) -> bool {
    s.len() >= 2 && s[0] == 'x' && is_hex_digit(s[1])
}

/// `0x` and the digits `h`.
pub open spec fn address(h: Seq<char>) -> Seq<char> {
    seq!['0', 'x'] + h
}

/// A run ends before a character that is no digit of the class.
pub proof fn lemma_run_stops(s: Seq<char>, hex: bool, j: int)
    requires
        0 <= j < s.len(),
        !in_class(s[j], hex),
    ensures
        class_run(s, hex) <= j,
    decreases s.len(),
{
    if j > 0 && in_class(s[0], hex) {
        lemma_run_stops(s.skip(1), hex, j - 1);
    }
}

/// A run goes through a text of digits and on into what follows.
pub proof fn lemma_run_through(d: Seq<char>, rest: Seq<char>, hex: bool)
    requires
        all_in_class(d, hex),
    ensures
        class_run(d + rest, hex) == d.len() + class_run(rest, hex),
    decreases d.len(),
{
    if d.len() == 0 {
        assert(d + rest == rest);
    } else {
        assert((d + rest)[0] == d[0]);
        assert((d + rest).skip(1) == d.skip(1) + rest);
        assert forall|i: int| 0 <= i < d.skip(1).len() implies in_class(
            #[trigger] d.skip(1)[i],
            hex,
        ) by {
            assert(d.skip(1)[i] == d[i + 1]);
        }
        lemma_run_through(d.skip(1), rest, hex);
    }
}

/// A run that ends within the first `m` characters is the same in every
/// text with these first `m` characters.
pub proof fn lemma_run_local(t1: Seq<char>, t2: Seq<char>, m: int, hex: bool)
    requires
        0 <= m <= t1.len(),
        m <= t2.len(),
        t1.take(m) == t2.take(m),
        class_run(t1, hex) < m,
    ensures
        class_run(t2, hex) == class_run(t1, hex),
    decreases m,
{
    if m > 0 {
        assert(t1[0] == t1.take(m)[0]);
        assert(t2[0] == t2.take(m)[0]);
        if in_class(t1[0], hex) {
            assert(t1.skip(1).take(m - 1) == t1.take(m).skip(1));
            assert(t2.skip(1).take(m - 1) == t2.take(m).skip(1));
            lemma_run_local(t1.skip(1), t2.skip(1), m - 1, hex);
        }
    }
}

/// An address that ends within the first `m` characters, `m` at least 3, is
/// the same in every text with these first `m` characters.
pub proof fn lemma_hex_match_local(left: Seq<char>, right: Seq<char>, m: int)
    requires
        3 <= m <= left.len(),
        m <= right.len(),
        left.take(m) == right.take(m),
        hex_match(left) < m,
    ensures
        hex_match(right) == hex_match(left),
{
    assert(left[0] == left.take(m)[0] && right[0] == right.take(m)[0]);
    assert(left[1] == left.take(m)[1] && right[1] == right.take(m)[1]);
    assert(left[2] == left.take(m)[2] && right[2] == right.take(m)[2]);
    if left[0] == '0' && left[1] == 'x' && is_hex_digit(left[2]) {
        assert(left.skip(2).take(m - 2) == left.take(m).skip(2));
        assert(right.skip(2).take(m - 2) == right.take(m).skip(2));
        lemma_run_local(left.skip(2), right.skip(2), m - 2, true);
    }
}

/// An address ends before a character that is neither a hexadecimal digit
/// nor an `x`.
pub proof fn lemma_hex_match_stops(s: Seq<char>, j: int)
    requires
        0 <= j < s.len(),
        !is_hex_digit(s[j]),
        s[j] != 'x',
    ensures
        hex_match(s) <= j,
{
    if s.len() >= 3 && s[0] == '0' && s[1] == 'x' && is_hex_digit(s[2]) {
        assert(j >= 2);
        assert(s.skip(2)[j - 2] == s[j]);
        lemma_run_stops(s.skip(2), true, j - 2);
    }
}

/// Changing the digits of an address that the scan finds does not change
/// what the scan makes of the text.
pub proof fn lemma_mask_hex_ignores_digits(
    pre: Seq<char>,
    h1: Seq<char>,
    h2: Seq<char>,
    post: Seq<char>,
)
    requires
        h1.len() > 0,
        h2.len() > 0,
        all_in_class(h1, true),
        all_in_class(h2, true),
        hex_scan_stops_at(pre + address(h1) + post, pre.len() as int),
    ensures
        mask_hex(pre + address(h1) + post) == mask_hex(pre + address(h2) + post),
    decreases pre.len(),
{
    let left = pre + address(h1) + post;
    let right = pre + address(h2) + post;
    if pre.len() == 0 {
        assert(left == address(h1) + post);
        assert(right == address(h2) + post);
        assert(left[0] == '0' && left[1] == 'x' && left[2] == h1[0]);
        assert(right[0] == '0' && right[1] == 'x' && right[2] == h2[0]);
        assert(left.skip(2) == h1 + post);
        assert(right.skip(2) == h2 + post);
        lemma_run_through(h1, post, true);
        lemma_run_through(h2, post, true);
        lemma_run_bound(post, true);
        let r = hex_run(post);
        assert(left.skip(hex_match(left) as int) == post.skip(r as int));
        assert(right.skip(hex_match(right) as int) == post.skip(r as int));
    } else {
        let n = hex_match(left);
        let m = pre.len() + 2;
        lemma_hex_match_bound(left);
        assert(left.take(m as int) == pre + seq!['0', 'x']);
        assert(right.take(m as int) == pre + seq!['0', 'x']);
        let step = if 0 < n <= left.len() {
            n as int
        } else {
            1int
        };
        assert(hex_scan_stops_at(left.skip(step), pre.len() - step));
        assert(step <= pre.len()) by {
            if step > pre.len() {
                assert(pre.len() - step < 0);
            }
        }
        lemma_hex_match_local(left, right, m as int);
        assert(left[0] == pre[0] && right[0] == pre[0]);
        assert(left.skip(step) == pre.skip(step) + address(h1) + post);
        assert(right.skip(step) == pre.skip(step) + address(h2) + post);
        lemma_mask_hex_ignores_digits(pre.skip(step), h1, h2, post);
    }
}

/// The signature does not depend on the digits of an address: where the
/// scan finds `0x` with the digits `h1` after `pre`, any other digits in
/// their place give the same signature.
pub proof fn lemma_signature_ignores_address_digits(
    pre: Seq<char>,
    h1: Seq<char>,
    h2: Seq<char>,
    post: Seq<char>,
)
    requires
        h1.len() > 0,
        h2.len() > 0,
        all_in_class(h1, true),
        all_in_class(h2, true),
        hex_scan_stops_at(pre + address(h1) + post, pre.len() as int),
    ensures
        normalized(pre + address(h1) + post) == normalized(pre + address(h2) + post),
        signature_of(pre + address(h1) + post) == signature_of(pre + address(h2) + post),
{
    lemma_mask_hex_ignores_digits(pre, h1, h2, post);
}

/// The scan comes by the end of any text whose last character is neither a
/// hexadecimal digit nor an `x`: no address reaches across it.
pub proof fn lemma_scan_stops_after_plain(pre: Seq<char>, rest: Seq<char>)
    requires
        pre.len() > 0 ==> !is_hex_digit(pre.last()) && pre.last() != 'x',
    ensures
        hex_scan_stops_at(pre + rest, pre.len() as int),
    decreases pre.len(),
{
    if pre.len() > 0 {
        let s = pre + rest;
        let last = pre.len() - 1;
        assert(s[last] == pre.last());
        lemma_hex_match_stops(s, last);
        let n = hex_match(s);
        let step = if 0 < n <= s.len() {
            n as int
        } else {
            1int
        };
        assert(s.skip(step) == pre.skip(step) + rest);
        if step < pre.len() {
            assert(pre.skip(step).last() == pre.last());
        }
        lemma_scan_stops_after_plain(pre.skip(step), rest);
    }
}

/// The scan for addresses treats what stands before and what stands after
/// a character that is neither a hexadecimal digit nor an `x` apart.
pub proof fn lemma_mask_hex_splits(u: Seq<char>, rest: Seq<char>)
    requires
        u.len() >= 1,
        !is_hex_digit(u.last()),
        u.last() != 'x',
    ensures
        mask_hex(u + rest) == mask_hex(u) + mask_hex(rest),
        mask_hex(u).len() >= 1,
        mask_hex(u).last() == u.last(),
    decreases u.len(),
{
    let s = u + rest;
    let last = u.len() - 1;
    assert(s[last] == u.last());
    lemma_hex_match_stops(s, last);
    lemma_hex_match_stops(u, last);
    if u.len() == 1 {
        assert(hex_match(s) == 0);
        assert(hex_match(u) == 0);
        assert(s.skip(1) == rest);
        assert(u.skip(1) == Seq::<char>::empty());
        assert(mask_hex(Seq::<char>::empty()) == Seq::<char>::empty());
        assert(mask_hex(u) == seq![u[0]] + mask_hex(u.skip(1)));
        assert(mask_hex(u) =~= seq![u[0]]);
        assert(mask_hex(s) == mask_hex(u) + mask_hex(rest));
    } else {
        if u.len() >= 3 {
            assert(s.take(u.len() as int) == u);
            assert(u.take(u.len() as int) == u);
            lemma_hex_match_local(s, u, u.len() as int);
        } else {
            assert(s[1] == u[1]);
            assert(hex_match(s) == 0);
            assert(hex_match(u) == 0);
        }
        let n = hex_match(u);
        let step = if 0 < n <= u.len() {
            n as int
        } else {
            1int
        };
        assert(step < u.len());
        assert(s.skip(step) == u.skip(step) + rest);
        assert(u.skip(step).last() == u.last());
        lemma_mask_hex_splits(u.skip(step), rest);
        assert(s[0] == u[0]);
        if 0 < n <= u.len() {
            assert(mask_hex(s) == hex_mask() + (mask_hex(u.skip(step)) + mask_hex(rest)));
            assert(mask_hex(u) == hex_mask() + mask_hex(u.skip(step)));
        } else {
            assert(mask_hex(s) == seq![u[0]] + (mask_hex(u.skip(step)) + mask_hex(rest)));
            assert(mask_hex(u) == seq![u[0]] + mask_hex(u.skip(step)));
        }
        assert(mask_hex(s) == mask_hex(u) + mask_hex(rest));
    }
}

/// What the scan for addresses leaves behind decimal digits: where the last
/// digit is a `0` and the text goes on as an address would, that `0` begins
/// an address; else the text is scanned by itself.
pub open spec fn behind_digits(d: Seq<char>, post: Seq<char>) -> Seq<char> {
    if d.len() > 0 && d.last() == '0' && begins_address_tail(post) {
        hex_mask().skip(1) + mask_hex(post.skip((1 + hex_run(post.skip(1))) as int))
    } else {
        mask_hex(post)
    }
}

/// The scan for addresses keeps decimal digits as they are.
pub proof fn lemma_mask_hex_keeps_digits(d: Seq<char>, post: Seq<char>)
    requires
        all_in_class(d, false),
    ensures
        mask_hex(d + post) == d + behind_digits(d, post),
    decreases d.len(),
{
    let s = d + post;
    if d.len() == 0 {
        assert(s == post);
        assert(d + mask_hex(post) == mask_hex(post));
    } else {
        assert(s[0] == d[0]);
        assert(is_digit(d[0]));
        let rest = d.skip(1);
        assert(s.skip(1) == rest + post);
        assert forall|i: int| 0 <= i < rest.len() implies in_class(#[trigger] rest[i], false) by {
            assert(rest[i] == d[i + 1]);
        }
        if rest.len() > 0 {
            assert(s[1] == d[1]);
            assert(is_digit(d[1]));
            assert(hex_match(s) == 0);
            lemma_mask_hex_keeps_digits(rest, post);
            assert(rest.last() == d.last());
            assert(behind_digits(rest, post) == behind_digits(d, post));
            assert(seq![d[0]] + (rest + behind_digits(d, post)) == d + behind_digits(d, post));
        } else {
            assert(d == seq![d[0]]);
            assert(d.last() == d[0]);
            if d[0] == '0' && begins_address_tail(post) {
                assert(s[1] == post[0] && s[2] == post[1]);
                assert(s.skip(2) == post.skip(1));
                lemma_run_bound(post.skip(1), true);
                let n = hex_match(s);
                assert(n == 2 + hex_run(post.skip(1)));
                assert(s.skip(n as int) == post.skip(n - 1));
                reveal_strlit("0xHEX");
                assert(hex_mask()[0] == '0');
                assert(hex_mask() == seq!['0'] + hex_mask().skip(1));
                assert(mask_hex(s) == hex_mask() + mask_hex(post.skip(n - 1)));
                assert(mask_hex(s) == d + behind_digits(d, post));
            } else {
                assert(hex_match(s) == 0) by {
                    if s.len() >= 3 && s[0] == '0' && s[1] == 'x' && is_hex_digit(s[2]) {
                        assert(s[1] == post[0] && s[2] == post[1]);
                    }
                }
                assert(mask_hex(s) == seq![d[0]] + mask_hex(post));
            }
        }
    }
}

/// `s` begins with a colon and a digit: with a line reference.
pub open spec fn begins_reference(s: Seq<char>) -> bool {
    s.len() >= 2 && s[0] == ':' && is_digit(s[1])
}

/// A colon and the digits `d`.
pub open spec fn reference(d: Seq<char>) -> Seq<char> {
    seq![':'] + d
}

/// `s` without the decimal digits it begins with.
pub open spec fn after_digits(s: Seq<char>) -> Seq<char> {
    s.skip(digit_run(s) as int)
}

/// Every character that a run counts is a digit of the class.
pub proof fn lemma_run_counts_digits(t: Seq<char>, hex: bool, j: int)
    requires
        0 <= j < class_run(t, hex),
    ensures
        j < t.len(),
        in_class(t[j], hex),
    decreases t.len(),
{
    if j > 0 {
        lemma_run_counts_digits(t.skip(1), hex, j - 1);
        assert(t.skip(1)[j - 1] == t[j]);
    }
}

/// The length of a reference at the start of a text, and what is left
/// behind its first run of digits.
pub proof fn lemma_single_reference(d: Seq<char>, y: Seq<char>)
    requires
        d.len() > 0,
        all_in_class(d, false),
    ensures
        (reference(d) + y).skip((1 + d.len() + digit_run(y)) as int) == after_digits(y),
        line_match(reference(d) + y) == 1 + d.len() + digit_run(y) + if begins_reference(
            after_digits(y),
        ) {
            1 + digit_run(after_digits(y).skip(1))
        } else {
            0
        },
{
    let s = reference(d) + y;
    lemma_run_bound(y, false);
    assert(s[0] == ':' && s[1] == d[0]);
    assert(s.skip(1) == d + y);
    lemma_run_through(d, y, false);
    let first = 1 + d.len() + digit_run(y);
    assert(s.skip(first as int) == after_digits(y));
}

/// The length of a reference with a column at the start of a text.
pub proof fn lemma_double_reference(k: Seq<char>, d: Seq<char>, y: Seq<char>)
    requires
        k.len() > 0,
        d.len() > 0,
        all_in_class(k, false),
        all_in_class(d, false),
    ensures
        line_match(reference(k) + reference(d) + y) == 1 + k.len() + 1 + d.len() + digit_run(y),
        (reference(k) + reference(d) + y).skip((1 + k.len() + 1 + d.len() + digit_run(y)) as int)
            == after_digits(y),
{
    let behind = reference(d) + y;
    let s = reference(k) + reference(d) + y;
    lemma_run_bound(y, false);
    assert(s == reference(k) + behind);
    lemma_single_reference(k, behind);
    assert(behind[0] == ':' && behind[1] == d[0]);
    assert(digit_run(behind) == 0);
    assert(after_digits(behind) == behind);
    assert(behind.skip(1) == d + y);
    lemma_run_through(d, y, false);
    let n = 1 + k.len() + 1 + d.len() + digit_run(y);
    assert(s.skip(n as int) == after_digits(y));
}

/// A reference that ends before the last colon of `p` is the same whatever
/// digits follow that colon.
pub proof fn lemma_match_inside(p: Seq<char>, a: Seq<char>, b: Seq<char>)
    requires
        p.len() >= 1,
        p.last() == ':',
        a.len() >= 1,
        b.len() >= 1,
        is_digit(a[0]),
        is_digit(b[0]),
        line_match(p + a) < p.len(),
    ensures
        line_match(p + b) == line_match(p + a),
{
    let left = p + a;
    let right = p + b;
    let m = p.len() as int;
    let last = m - 1;
    assert(left[0] == p[0] && right[0] == p[0]);
    assert(left[last] == ':' && right[last] == ':');
    assert(left[m] == a[0] && right[m] == b[0]);
    if m == 1 {
        lemma_run_bound(left.skip(1), false);
    } else {
        assert(left[1] == p[1] && right[1] == p[1]);
        if p[0] == ':' && is_digit(p[1]) {
            let tl = left.skip(1);
            let tr = right.skip(1);
            assert(tl[last - 1] == ':');
            lemma_run_stops(tl, false, last - 1);
            assert(tl.take(last) =~= tr.take(last));
            lemma_run_local(tl, tr, last, false);
            let first = (1 + digit_run(tl)) as int;
            let rl = left.skip(first);
            let rr = right.skip(first);
            assert(rl[0] == left[first] && rr[0] == right[first]);
            assert(rl[1] == left[first + 1] && rr[1] == right[first + 1]);
            if first == last {
                lemma_run_bound(rl.skip(1), false);
            } else {
                assert(left[first] == p[first] && right[first] == p[first]);
                if first + 1 < last {
                    assert(left[first + 1] == p[first + 1] && right[first + 1] == p[first + 1]);
                }
                if rl[0] == ':' && is_digit(rl[1]) {
                    let ul = rl.skip(1);
                    let ur = rr.skip(1);
                    assert(ul == left.skip(first + 1));
                    assert(ur == right.skip(first + 1));
                    assert(ul[last - first - 1] == ':');
                    lemma_run_stops(ul, false, last - first - 1);
                    assert(ul.take(last - first) =~= ur.take(last - first));
                    lemma_run_local(ul, ur, last - first, false);
                }
            }
        }
    }
}

/// A reference that reaches across the last colon of `p` begins with `p`,
/// and `p` is a colon, digits and that last colon.
pub proof fn lemma_match_across(p: Seq<char>, a: Seq<char>)
    requires
        p.len() >= 2,
        p.last() == ':',
        a.len() >= 1,
        is_digit(a[0]),
        line_match(p + a) >= p.len(),
    ensures
        p.len() >= 3,
        all_in_class(p.subrange(1, p.len() - 1), false),
        p == reference(p.subrange(1, p.len() - 1)) + seq![':'],
{
    let left = p + a;
    let m = p.len() as int;
    let last = m - 1;
    assert(left[0] == p[0] && left[1] == p[1]);
    assert(left[last] == ':');
    let tl = left.skip(1);
    assert(tl[last - 1] == ':');
    lemma_run_stops(tl, false, last - 1);
    let first = (1 + digit_run(tl)) as int;
    let rl = left.skip(first);
    assert(rl[0] == left[first]);
    assert(rl[1] == left[first + 1]);
    if first < last {
        if rl[0] == ':' && is_digit(rl[1]) {
            let ul = rl.skip(1);
            assert(ul == left.skip(first + 1));
            assert(left[first + 1] == p[first + 1]);
            assert(ul[last - first - 1] == ':');
            lemma_run_stops(ul, false, last - first - 1);
        }
    }
    assert(first == last);
    let k = p.subrange(1, last);
    assert forall|j: int| 0 <= j < k.len() implies in_class(#[trigger] k[j], false) by {
        lemma_run_counts_digits(tl, false, j);
        assert(tl[j] == p[j + 1]);
    }
    assert(p =~= reference(k) + seq![':']);
}

/// Changing the digits behind a colon does not change what the scan for
/// line references makes of the text.
pub proof fn lemma_mask_lines_ignores_digits(
    x: Seq<char>,
    e1: Seq<char>,
    e2: Seq<char>,
    y: Seq<char>,
)
    requires
        x.len() >= 1,
        x.last() == ':',
        e1.len() > 0,
        e2.len() > 0,
        all_in_class(e1, false),
        all_in_class(e2, false),
    ensures
        mask_lines(x + e1 + y) == mask_lines(x + e2 + y),
    decreases x.len(),
{
    let left = x + e1 + y;
    let right = x + e2 + y;
    let a = e1 + y;
    let b = e2 + y;
    assert(left == x + a && right == x + b);
    assert(a[0] == e1[0] && b[0] == e2[0]);
    let n = line_match(left);
    lemma_line_match_bound(left);
    lemma_line_match_bound(right);
    lemma_run_bound(y, false);
    let tail = after_digits(y);
    let more = if begins_reference(tail) {
        1 + digit_run(tail.skip(1))
    } else {
        0
    };
    if tail.len() >= 1 {
        lemma_run_bound(tail.skip(1), false);
    }
    if x.len() == 1 {
        assert(x == seq![':']);
        assert(left == reference(e1) + y && right == reference(e2) + y);
        lemma_single_reference(e1, y);
        lemma_single_reference(e2, y);
        let f1 = 1 + e1.len() + digit_run(y);
        let f2 = 1 + e2.len() + digit_run(y);
        assert(left.skip((f1 + more) as int) == left.skip(f1 as int).skip(more as int));
        assert(right.skip((f2 + more) as int) == right.skip(f2 as int).skip(more as int));
    } else if n >= x.len() {
        lemma_match_across(x, a);
        let k = x.subrange(1, x.len() - 1);
        assert(left == reference(k) + reference(e1) + y);
        assert(right == reference(k) + reference(e2) + y);
        lemma_double_reference(k, e1, y);
        lemma_double_reference(k, e2, y);
    } else {
        lemma_match_inside(x, a, b);
        let step = if 0 < n {
            n as int
        } else {
            1int
        };
        assert(left[0] == x[0] && right[0] == x[0]);
        assert(left.skip(step) == x.skip(step) + e1 + y);
        assert(right.skip(step) == x.skip(step) + e2 + y);
        assert(x.skip(step).last() == ':');
        lemma_mask_lines_ignores_digits(x.skip(step), e1, e2, y);
    }
}

/// A reference with a second colon and more digits is masked as one
/// without, where the scan finds it and what follows is no further
/// reference.
pub proof fn lemma_mask_lines_ignores_column(
    x: Seq<char>,
    d1: Seq<char>,
    d2: Seq<char>,
    d3: Seq<char>,
    y: Seq<char>,
)
    requires
        d1.len() > 0,
        d2.len() > 0,
        d3.len() > 0,
        all_in_class(d1, false),
        all_in_class(d2, false),
        all_in_class(d3, false),
        line_scan_stops_at(x + reference(d1) + reference(d2) + y, x.len() as int),
        !begins_reference(after_digits(y)),
    ensures
        mask_lines(x + reference(d1) + reference(d2) + y) == mask_lines(x + reference(d3) + y),
    decreases x.len(),
{
    let left = x + reference(d1) + reference(d2) + y;
    let right = x + reference(d3) + y;
    lemma_line_match_bound(left);
    lemma_line_match_bound(right);
    lemma_run_bound(y, false);
    if x.len() == 0 {
        assert(left == reference(d1) + reference(d2) + y);
        assert(right == reference(d3) + y);
        lemma_double_reference(d1, d2, y);
        lemma_single_reference(d3, y);
    } else {
        let p = x + seq![':'];
        let a = d1 + reference(d2) + y;
        let b = d3 + y;
        assert(left == p + a && right == p + b);
        assert(a[0] == d1[0] && b[0] == d3[0]);
        let n = line_match(left);
        let step = if 0 < n <= left.len() {
            n as int
        } else {
            1int
        };
        assert(line_scan_stops_at(left.skip(step), x.len() - step));
        assert(step <= x.len()) by {
            if step > x.len() {
                assert(x.len() - step < 0);
            }
        }
        lemma_match_inside(p, a, b);
        assert(left[0] == x[0] && right[0] == x[0]);
        assert(left.skip(step) == x.skip(step) + reference(d1) + reference(d2) + y);
        assert(right.skip(step) == x.skip(step) + reference(d3) + y);
        lemma_mask_lines_ignores_column(x.skip(step), d1, d2, d3, y);
    }
}

/// The signature does not depend on the digits of a line reference: behind
/// a colon, any digits in the place of others give the same signature.
///
/// One case is left out. Where the text goes on with an `x` and a
/// hexadecimal digit, a last digit `0` begins an address; the two runs of
/// digits must then both end in `0`, or neither.
pub proof fn lemma_signature_ignores_line_digits(
    pre: Seq<char>,
    d1: Seq<char>,
    d2: Seq<char>,
    post: Seq<char>,
)
    requires
        d1.len() > 0,
        d2.len() > 0,
        all_in_class(d1, false),
        all_in_class(d2, false),
        begins_address_tail(post) ==> (d1.last() == '0') == (d2.last() == '0'),
    ensures
        normalized(pre + seq![':'] + d1 + post) == normalized(pre + seq![':'] + d2 + post),
        signature_of(pre + seq![':'] + d1 + post) == signature_of(pre + seq![':'] + d2 + post),
{
    let u = pre + seq![':'];
    assert(u.last() == ':');
    lemma_mask_hex_splits(u, d1 + post);
    lemma_mask_hex_splits(u, d2 + post);
    lemma_mask_hex_keeps_digits(d1, post);
    lemma_mask_hex_keeps_digits(d2, post);
    let x = mask_hex(u);
    let y = behind_digits(d1, post);
    assert(y == behind_digits(d2, post));
    assert(u + (d1 + post) == pre + seq![':'] + d1 + post);
    assert(u + (d2 + post) == pre + seq![':'] + d2 + post);
    assert(x + (d1 + y) == x + d1 + y);
    assert(x + (d2 + y) == x + d2 + y);
    lemma_mask_lines_ignores_digits(x, d1, d2, y);
}

/// The scan for line references in `s` comes by index `k`: it begins there
/// to look for the next reference, having found none that reaches across.
pub open spec fn line_scan_stops_at(s: Seq<char>, k: int) -> bool
    decreases s.len(),
{
    if k == 0 {
        true
    } else if k < 0 || s.len() == 0 {
        false
    } else if 0 < line_match(s) <= s.len() {
        line_scan_stops_at(s.skip(line_match(s) as int), k - line_match(s))
    } else {
        line_scan_stops_at(s.skip(1), k - 1)
    }
}

/// The index, in the text with its addresses masked, of a colon that stands
/// behind `pre`.
pub open spec fn masked_colon_index(pre: Seq<char>) -> int {
    mask_hex(pre + seq![':']).len() - 1
}

/// A line reference ends before a character that is neither a decimal digit
/// nor a colon.
pub proof fn lemma_line_match_stops(s: Seq<char>, j: int)
    requires
        0 <= j < s.len(),
        !is_digit(s[j]),
        s[j] != ':',
    ensures
        line_match(s) <= j,
{
    if s.len() >= 2 && s[0] == ':' && is_digit(s[1]) {
        assert(j >= 2);
        assert(s.skip(1)[j - 1] == s[j]);
        lemma_run_stops(s.skip(1), false, j - 1);
        let first = (1 + digit_run(s.skip(1))) as int;
        let rest = s.skip(first);
        if rest.len() >= 2 && rest[0] == ':' && is_digit(rest[1]) {
            assert(rest[0] == s[first]);
            assert(rest[1] == s[first + 1]);
            assert(first + 1 < j);
            assert(rest.skip(1)[j - first - 1] == s[j]);
            lemma_run_stops(rest.skip(1), false, j - first - 1);
        }
    }
}

/// The scan for line references comes by the end of any text whose last
/// character is neither a decimal digit nor a colon.
pub proof fn lemma_line_scan_stops_after_plain(x: Seq<char>, rest: Seq<char>)
    requires
        x.len() > 0 ==> !is_digit(x.last()) && x.last() != ':',
    ensures
        line_scan_stops_at(x + rest, x.len() as int),
    decreases x.len(),
{
    if x.len() > 0 {
        let s = x + rest;
        let last = x.len() - 1;
        assert(s[last] == x.last());
        lemma_line_match_stops(s, last);
        let n = line_match(s);
        let step = if 0 < n <= s.len() {
            n as int
        } else {
            1int
        };
        assert(s.skip(step) == x.skip(step) + rest);
        if step < x.len() {
            assert(x.skip(step).last() == x.last());
        }
        lemma_line_scan_stops_after_plain(x.skip(step), rest);
    }
}

/// The signature does not depend on whether a line reference names a
/// column: a colon, digits, a second colon and digits give the same
/// signature as a colon and digits.
///
/// This holds where the reference is found and ends as one. Once the
/// addresses are masked, the scan for line references must come by the
/// first colon, and what follows the digits must not begin a further
/// reference. And where the text goes on as an address would, the last
/// digits on both sides must end in `0`, or on neither.
pub proof fn lemma_signature_ignores_column(
    pre: Seq<char>,
    d1: Seq<char>,
    d2: Seq<char>,
    d3: Seq<char>,
    post: Seq<char>,
)
    requires
        d1.len() > 0,
        d2.len() > 0,
        d3.len() > 0,
        all_in_class(d1, false),
        all_in_class(d2, false),
        all_in_class(d3, false),
        begins_address_tail(post) ==> (d2.last() == '0') == (d3.last() == '0'),
        line_scan_stops_at(
            mask_hex(pre + reference(d1) + reference(d2) + post),
            masked_colon_index(pre),
        ),
        !begins_reference(after_digits(behind_digits(d2, post))),
    ensures
        normalized(pre + reference(d1) + reference(d2) + post) == normalized(
            pre + reference(d3) + post,
        ),
        signature_of(pre + reference(d1) + reference(d2) + post) == signature_of(
            pre + reference(d3) + post,
        ),
{
    let colon = seq![':'];
    let u = pre + colon;
    assert(u.last() == ':');
    let w = d1 + colon;
    assert(w.last() == ':');
    lemma_mask_hex_splits(u, w + (d2 + post));
    lemma_mask_hex_splits(w, d2 + post);
    lemma_mask_hex_splits(u, d3 + post);
    lemma_mask_hex_keeps_digits(d1, colon);
    lemma_mask_hex_keeps_digits(d2, post);
    lemma_mask_hex_keeps_digits(d3, post);
    lemma_mask_hex_splits(colon, Seq::<char>::empty());
    assert(colon + Seq::<char>::empty() == colon);
    assert(mask_hex(colon) == colon) by {
        assert(hex_match(colon) == 0);
        assert(colon.skip(1) == Seq::<char>::empty());
        assert(mask_hex(Seq::<char>::empty()) == Seq::<char>::empty());
        assert(mask_hex(colon) == seq![colon[0]] + mask_hex(colon.skip(1)));
        assert(seq![colon[0]] + Seq::<char>::empty() == colon);
    }
    assert(!begins_address_tail(colon));
    assert(mask_hex(w) == w);
    let masked = mask_hex(u);
    let x = masked.drop_last();
    assert(masked == x + colon);
    let y = behind_digits(d2, post);
    assert(y == behind_digits(d3, post));
    assert(u + (w + (d2 + post)) == pre + reference(d1) + reference(d2) + post);
    assert(u + (d3 + post) == pre + reference(d3) + post);
    assert(masked + (w + (d2 + y)) == x + reference(d1) + reference(d2) + y);
    assert(masked + (d3 + y) == x + reference(d3) + y);
    lemma_mask_lines_ignores_column(x, d1, d2, d3, y);
}

/// The same, under a condition that is plain to see: the reference stands
/// between two characters that are part of nothing that is masked. What
/// precedes it does not end in a hexadecimal digit, an `x` or a colon, and
/// what follows does not begin with a digit, a colon or an `x`.
pub proof fn lemma_signature_ignores_column_between_plain(
    pre: Seq<char>,
    d1: Seq<char>,
    d2: Seq<char>,
    d3: Seq<char>,
    post: Seq<char>,
)
    requires
        d1.len() > 0,
        d2.len() > 0,
        d3.len() > 0,
        all_in_class(d1, false),
        all_in_class(d2, false),
        all_in_class(d3, false),
        pre.len() > 0 ==> !is_hex_digit(pre.last()) && pre.last() != 'x' && pre.last() != ':',
        post.len() > 0 ==> !is_digit(post[0]) && post[0] != ':' && post[0] != 'x',
    ensures
        signature_of(pre + reference(d1) + reference(d2) + post) == signature_of(
            pre + reference(d3) + post,
        ),
{
    let colon = seq![':'];
    let whole = pre + reference(d1) + reference(d2) + post;
    let rest = d1 + reference(d2) + post;
    assert(!begins_address_tail(post));
    let y = behind_digits(d2, post);
    assert(y == mask_hex(post));
    assert(!begins_reference(after_digits(y))) by {
        if post.len() > 0 {
            assert(hex_match(post) == 0);
            assert(y[0] == post[0]);
            assert(digit_run(y) == 0);
            assert(after_digits(y) == y);
        } else {
            assert(y.len() == 0);
        }
    }
    lemma_mask_hex_splits(pre + colon, rest);
    assert((pre + colon) + rest == whole);
    let masked = mask_hex(pre + colon);
    let x = masked.drop_last();
    assert(masked == x + colon);
    if pre.len() > 0 {
        lemma_mask_hex_splits(pre, colon);
        assert(mask_hex(colon) == colon) by {
            assert(hex_match(colon) == 0);
            assert(colon.skip(1) == Seq::<char>::empty());
            assert(mask_hex(Seq::<char>::empty()) == Seq::<char>::empty());
            assert(mask_hex(colon) == seq![colon[0]] + mask_hex(colon.skip(1)));
            assert(seq![colon[0]] + Seq::<char>::empty() == colon);
        }
        assert(x == mask_hex(pre));
        assert(x.last() == pre.last());
    } else {
        assert(pre + colon == colon);
        assert(x.len() == 0) by {
            assert(hex_match(colon) == 0);
            assert(colon.skip(1) == Seq::<char>::empty());
            assert(mask_hex(Seq::<char>::empty()) == Seq::<char>::empty());
            assert(mask_hex(colon) == seq![colon[0]] + mask_hex(colon.skip(1)));
        }
    }
    lemma_line_scan_stops_after_plain(x, colon + mask_hex(rest));
    assert(x + (colon + mask_hex(rest)) == mask_hex(whole));
    lemma_signature_ignores_column(pre, d1, d2, d3, post);
}

/// No address begins anywhere in `s`.
pub open spec fn address_free(s: Seq<char>) -> bool {
    forall|i: int| 0 <= i < s.len() ==> hex_match(#[trigger] s.skip(i)) == 0
}

/// No line reference begins in `s` before index `k`.
pub open spec fn reference_free_before(s: Seq<char>, k: int) -> bool {
    forall|i: int| 0 <= i < k ==> line_match(#[trigger] s.skip(i)) == 0
}

/// What follows in a text without addresses is a text without addresses.
pub proof fn lemma_address_free_rest(s: Seq<char>, k: int)
    requires
        address_free(s),
        0 <= k <= s.len(),
    ensures
        address_free(s.skip(k)),
{
    assert forall|i: int| 0 <= i < s.skip(k).len() implies hex_match(
        #[trigger] s.skip(k).skip(i),
    ) == 0 by {
        assert(s.skip(k).skip(i) == s.skip(k + i));
    }
}

/// The mask for addresses leaves a text without addresses as it is.
pub proof fn lemma_mask_hex_leaves_address_free(s: Seq<char>)
    requires
        address_free(s),
    ensures
        mask_hex(s) == s,
    decreases s.len(),
{
    if s.len() > 0 {
        assert(s.skip(0) == s);
        lemma_address_free_rest(s, 1);
        lemma_mask_hex_leaves_address_free(s.skip(1));
        assert(seq![s[0]] + s.skip(1) == s);
    }
}

/// The scan for line references comes by the first index before which no
/// reference begins.
pub proof fn lemma_line_scan_reaches_first_reference(s: Seq<char>, k: int)
    requires
        0 <= k <= s.len(),
        reference_free_before(s, k),
    ensures
        line_scan_stops_at(s, k),
    decreases k,
{
    if k > 0 {
        assert(s.skip(0) == s);
        assert forall|i: int| 0 <= i < k - 1 implies line_match(#[trigger] s.skip(1).skip(i))
            == 0 by {
            assert(s.skip(1).skip(i) == s.skip(i + 1));
        }
        lemma_line_scan_reaches_first_reference(s.skip(1), k - 1);
    }
}

/// The signature of a text without addresses does not depend on whether its
/// first line reference names a column, where what follows the reference
/// begins with no digit, colon or `x`: with white space or a bracket, say,
/// or not at all.
pub proof fn lemma_signature_ignores_column_of_first_reference(
    pre: Seq<char>,
    d1: Seq<char>,
    d2: Seq<char>,
    d3: Seq<char>,
    post: Seq<char>,
)
    requires
        d1.len() > 0,
        d2.len() > 0,
        d3.len() > 0,
        all_in_class(d1, false),
        all_in_class(d2, false),
        all_in_class(d3, false),
        address_free(pre + reference(d1) + reference(d2) + post),
        reference_free_before(pre + reference(d1) + reference(d2) + post, pre.len() as int),
        post.len() > 0 ==> !is_digit(post[0]) && post[0] != ':' && post[0] != 'x',
    ensures
        signature_of(pre + reference(d1) + reference(d2) + post) == signature_of(
            pre + reference(d3) + post,
        ),
{
    let colon = seq![':'];
    let whole = pre + reference(d1) + reference(d2) + post;
    let u = pre + colon;
    let rest = d1 + reference(d2) + post;
    assert(u + rest == whole);
    assert(whole.skip(u.len() as int) == rest);
    assert(whole.skip(whole.len() - post.len()) == post);
    lemma_address_free_rest(whole, u.len() as int);
    lemma_address_free_rest(whole, whole.len() - post.len());
    lemma_mask_hex_leaves_address_free(whole);
    lemma_mask_hex_leaves_address_free(rest);
    lemma_mask_hex_leaves_address_free(post);
    lemma_mask_hex_splits(u, rest);
    assert(mask_hex(u) == u) by {
        assert(mask_hex(u) + rest == u + rest);
        assert(mask_hex(u).len() == u.len());
        assert forall|i: int| 0 <= i < u.len() implies mask_hex(u)[i] == u[i] by {
            assert((mask_hex(u) + rest)[i] == (u + rest)[i]);
        }
        assert(mask_hex(u) =~= u);
    }
    assert(masked_colon_index(pre) == pre.len());
    lemma_line_scan_reaches_first_reference(whole, pre.len() as int);
    assert(!begins_address_tail(post));
    assert(behind_digits(d2, post) == post);
    assert(!begins_reference(after_digits(post))) by {
        if post.len() > 0 {
            assert(digit_run(post) == 0);
            assert(after_digits(post) == post);
        } else {
            assert(after_digits(post).len() == 0);
        }
    }
    lemma_signature_ignores_column(pre, d1, d2, d3, post);
}

} // verus!
