//! Closed templates: texts in which whatever looks like a hole is one.
//!
//! A tag is a `<`, one or more lower-case letters or underscores, and a `>`.
//! A text is closed when each of its tags is a hole token. Fusing,
//! substituting, inserting and the tree-based extraction keep a closed text
//! closed. Deleting a hole does not: `<<var>b>` is closed, and what is left
//! of it, `<b>`, is not. It does where every bracket of the text belongs to
//! a hole token. Substituting one token for another also leaves the number
//! of holes as it was.
use crate::ast::{
    chars_before, inserted_at, insertion_points, lemma_chars_before_bounds, recording, SyntaxNode,
};
use crate::extractor::{
    edited, edited_all, extracted, placed, planned_edits, rightmost_first, Edit,
};
use crate::mutator::{
    delete_first_hole, fused, is_insertion, is_insertion_at_point, is_line_insertion,
    is_point_insertion, is_substitution, plain_statement, remove_first, statements, with_line,
};
use crate::template::{
    code_str_token, integer_token, is_token, lemma_token_chars, var_token, vocabulary,
};
use crate::text::{
    contains, first_occurrence, free_of, join_lines, lemma_join_split, occurs_at, replace_all,
    splice, split_lines,
};
use tree_sitter::Tree;
use vstd::prelude::*;

verus! {

/// `c` may stand inside a tag.
pub open spec fn is_tag_char(c: char) -> bool {
    ('a' <= c <= 'z') || c == '_'
}

/// A tag with `n` characters between its brackets stands in `s` at index
/// `i`.
pub open spec fn tag_at(s: Seq<char>, i: int, n: int) -> bool {
    &&& 0 <= i
    &&& 1 <= n
    &&& i + n + 2 <= s.len()
    &&& s[i] == '<'
    &&& s[i + n + 1] == '>'
    &&& forall|k: int| i < k <= i + n ==> is_tag_char(#[trigger] s[k])
}

/// Every tag in `s` is a hole token.
pub open spec fn closed(s: Seq<char>) -> bool {
    forall|i: int, n: int| #[trigger] tag_at(s, i, n) ==> is_token(s.subrange(i, i + n + 2))
}

/// Every edit puts in a hole token.
pub open spec fn all_tokens(edits: Seq<Edit>) -> bool {
    forall|k: int| 0 <= k < edits.len() ==> is_token((#[trigger] edits[k]).token@)
}

/// A hole token is a tag: brackets around tag characters.
pub proof fn lemma_token_shape(t: Seq<char>)
    requires
        is_token(t),
    ensures
        t.len() >= 3,
        t[0] == '<',
        t[t.len() - 1] == '>',
        forall|k: int| 0 < k < t.len() - 1 ==> is_tag_char(#[trigger] t[k]),
{
    lemma_token_chars();
}

/// A hole token stands in `s` at index `i`.
pub open spec fn token_at(s: Seq<char>, i: int) -> bool {
    occurs_at(s, var_token(), i) || occurs_at(s, integer_token(), i) || occurs_at(
        s,
        code_str_token(),
        i,
    )
}

/// A hole token stands in `s` with its last character at index `i`.
pub open spec fn token_ends_at(s: Seq<char>, i: int) -> bool {
    occurs_at(s, var_token(), i + 1 - var_token().len()) || occurs_at(
        s,
        integer_token(),
        i + 1 - integer_token().len(),
    ) || occurs_at(s, code_str_token(), i + 1 - code_str_token().len())
}

/// Every bracket in `s` belongs to a hole token: each `<` begins one, and
/// each `>` ends one.
pub open spec fn bracketed(s: Seq<char>) -> bool {
    &&& forall|i: int| 0 <= i < s.len() && s[i] == '<' ==> #[trigger] token_at(s, i)
    &&& forall|i: int| 0 <= i < s.len() && s[i] == '>' ==> #[trigger] token_ends_at(s, i)
}

/// A text in which every bracket belongs to a hole token is closed.
pub proof fn lemma_bracketed_closed(s: Seq<char>)
    requires
        bracketed(s),
    ensures
        closed(s),
{
    lemma_token_chars();
    assert forall|i: int, n: int| #[trigger] tag_at(s, i, n) implies is_token(
        s.subrange(i, i + n + 2),
    ) by {
        assert(token_at(s, i));
        let t = if occurs_at(s, var_token(), i) {
            var_token()
        } else if occurs_at(s, integer_token(), i) {
            integer_token()
        } else {
            code_str_token()
        };
        lemma_token_shape(t);
        let e = i + n + 1;
        let last = i + t.len() - 1;
        assert(s.subrange(i, i + t.len())[t.len() - 1] == s[last]);
        if last < e {
            assert(is_tag_char(s[last]));
        } else if last > e {
            assert(s.subrange(i, i + t.len())[e - i] == s[e]);
            assert(is_tag_char(t[e - i]));
        }
    }
}

/// The token that stands in `s` at index `i`, where one does.
pub open spec fn token_from(s: Seq<char>, i: int) -> Seq<char> {
    if occurs_at(s, var_token(), i) {
        var_token()
    } else if occurs_at(s, integer_token(), i) {
        integer_token()
    } else {
        code_str_token()
    }
}

/// The token that stands in `s` with its last character at index `i`, where
/// one does.
pub open spec fn token_up_to(s: Seq<char>, i: int) -> Seq<char> {
    if occurs_at(s, var_token(), i + 1 - var_token().len()) {
        var_token()
    } else if occurs_at(s, integer_token(), i + 1 - integer_token().len()) {
        integer_token()
    } else {
        code_str_token()
    }
}

/// With a token taken out at `p`, a token that began at `i` still begins
/// where `i` has come to stand.
proof fn lemma_token_begins_after_removal(s: Seq<char>, t: Seq<char>, p: int, i: int)
    requires
        is_token(t),
        occurs_at(s, t, p),
        0 <= i < s.len(),
        i < p || i >= p + t.len(),
        token_at(s, i),
    ensures
        token_at(
            splice(s, p, p + t.len(), Seq::<char>::empty()),
            if i < p {
                i
            } else {
                i - t.len()
            },
        ),
{
    let n = t.len() as int;
    let r = splice(s, p, p + n, Seq::<char>::empty());
    let u = token_from(s, i);
    lemma_token_chars();
    lemma_token_shape(t);
    lemma_token_shape(u);
    assert(s.subrange(p, p + n)[0] == s[p]);
    if i < p {
        if i + u.len() > p {
            assert(s.subrange(i, i + u.len())[p - i] == s[p]);
            if p - i < u.len() - 1 {
                assert(is_tag_char(u[p - i]));
            }
        }
        assert(r.subrange(i, i + u.len()) =~= s.subrange(i, i + u.len()));
    } else {
        assert(r.subrange(i - n, i - n + u.len()) =~= s.subrange(i, i + u.len()));
    }
}

/// With a token taken out at `p`, a token that ended at `e` still ends
/// where `e` has come to stand.
proof fn lemma_token_ends_after_removal(s: Seq<char>, t: Seq<char>, p: int, e: int)
    requires
        is_token(t),
        occurs_at(s, t, p),
        0 <= e < s.len(),
        e < p || e >= p + t.len(),
        token_ends_at(s, e),
    ensures
        token_ends_at(
            splice(s, p, p + t.len(), Seq::<char>::empty()),
            if e < p {
                e
            } else {
                e - t.len()
            },
        ),
{
    let n = t.len() as int;
    let r = splice(s, p, p + n, Seq::<char>::empty());
    let u = token_up_to(s, e);
    let j = e + 1 - u.len();
    lemma_token_chars();
    lemma_token_shape(t);
    lemma_token_shape(u);
    assert(s.subrange(p, p + n)[n - 1] == s[p + n - 1]);
    if e < p {
        assert(r.subrange(j, j + u.len()) =~= s.subrange(j, j + u.len()));
    } else {
        if j < p + n {
            let cut = p + n - 1;
            assert(s.subrange(j, j + u.len())[cut - j] == s[cut]);
            if cut - j > 0 {
                assert(is_tag_char(u[cut - j]));
            }
        }
        assert(r.subrange(j - n, j - n + u.len()) =~= s.subrange(j, j + u.len()));
    }
}

/// Taking a hole token out of a text in which every bracket belongs to a
/// hole token leaves such a text.
pub proof fn lemma_removal_keeps_bracketed(s: Seq<char>, t: Seq<char>, p: int)
    requires
        bracketed(s),
        is_token(t),
        occurs_at(s, t, p),
    ensures
        bracketed(splice(s, p, p + t.len(), Seq::<char>::empty())),
{
    let n = t.len() as int;
    let r = splice(s, p, p + n, Seq::<char>::empty());
    assert forall|i: int| 0 <= i < r.len() && r[i] == '<' implies #[trigger] token_at(r, i) by {
        let from = if i < p {
            i
        } else {
            i + n
        };
        assert(r[i] == s[from]);
        assert(token_at(s, from));
        lemma_token_begins_after_removal(s, t, p, from);
    }
    assert forall|i: int| 0 <= i < r.len() && r[i] == '>' implies #[trigger] token_ends_at(
        r,
        i,
    ) by {
        let from = if i < p {
            i
        } else {
            i + n
        };
        assert(r[i] == s[from]);
        assert(token_ends_at(s, from));
        lemma_token_ends_after_removal(s, t, p, from);
    }
}

/// A pattern that stands in a text has a leftmost occurrence there.
pub proof fn lemma_leftmost_occurrence(s: Seq<char>, pat: Seq<char>, i: int)
    requires
        occurs_at(s, pat, i),
    ensures
        exists|j: int| first_occurrence(s, pat, j),
    decreases i,
{
    if exists|k: int| 0 <= k < i && occurs_at(s, pat, k) {
        let k = choose|k: int| 0 <= k < i && occurs_at(s, pat, k);
        lemma_leftmost_occurrence(s, pat, k);
    } else {
        assert(first_occurrence(s, pat, i));
    }
}

/// Taking the leftmost occurrence of a hole token out of a text in which
/// every bracket belongs to a hole token leaves such a text.
pub proof fn lemma_remove_first_keeps_bracketed(s: Seq<char>, t: Seq<char>)
    requires
        bracketed(s),
        is_token(t),
    ensures
        bracketed(remove_first(s, t)),
{
    if contains(s, t) {
        let i = choose|i: int| occurs_at(s, t, i);
        lemma_leftmost_occurrence(s, t, i);
        let p = choose|p: int| first_occurrence(s, t, p);
        lemma_removal_keeps_bracketed(s, t, p);
    }
}

/// Deleting a hole from a template in which every bracket belongs to a hole
/// token leaves such a template, and so a closed one.
pub proof fn lemma_deletion_keeps_bracketed(s: Seq<char>)
    requires
        bracketed(s),
    ensures
        bracketed(delete_first_hole(s)),
        closed(delete_first_hole(s)),
{
    lemma_remove_first_keeps_bracketed(s, var_token());
    lemma_remove_first_keeps_bracketed(s, integer_token());
    lemma_remove_first_keeps_bracketed(s, code_str_token());
    lemma_bracketed_closed(delete_first_hole(s));
}

/// The length of the hole token that `s` begins with; 0 where it begins
/// with none.
pub open spec fn leading_token(s: Seq<char>) -> nat {
    if occurs_at(s, var_token(), 0) {
        var_token().len()
    } else if occurs_at(s, integer_token(), 0) {
        integer_token().len()
    } else if occurs_at(s, code_str_token(), 0) {
        code_str_token().len()
    } else {
        0
    }
}

/// The number of holes in `s`: of the hole tokens met from left to right.
pub open spec fn hole_count(s: Seq<char>) -> nat
    decreases s.len(),
{
    if s.len() == 0 {
        0
    } else if 0 < leading_token(s) <= s.len() {
        1 + hole_count(s.skip(leading_token(s) as int))
    } else {
        hole_count(s.skip(1))
    }
}

/// A text begins with at most one hole token.
pub proof fn lemma_leading_token(s: Seq<char>, t: Seq<char>)
    requires
        is_token(t),
        occurs_at(s, t, 0),
    ensures
        leading_token(s) == t.len(),
        0 < t.len() <= s.len(),
{
    lemma_token_chars();
    assert(s.subrange(0, t.len() as int)[1] == s[1]);
    if occurs_at(s, var_token(), 0) {
        assert(s.subrange(0, var_token().len() as int)[1] == s[1]);
    }
    if occurs_at(s, integer_token(), 0) {
        assert(s.subrange(0, integer_token().len() as int)[1] == s[1]);
    }
    if occurs_at(s, code_str_token(), 0) {
        assert(s.subrange(0, code_str_token().len() as int)[1] == s[1]);
    }
}

/// Replacing one hole token passes over another that the text begins with.
pub proof fn lemma_replace_passes_token(
    s: Seq<char>,
    u: Seq<char>,
    pat: Seq<char>,
    rep: Seq<char>,
    k: int,
)
    requires
        is_token(u),
        is_token(pat),
        u != pat,
        occurs_at(s, u, 0),
        0 <= k <= u.len(),
    ensures
        replace_all(s.skip(k), pat, rep) == u.skip(k) + replace_all(
            s.skip(u.len() as int),
            pat,
            rep,
        ),
    decreases u.len() - k,
{
    let m = u.len() as int;
    let n = pat.len() as int;
    let x = s.skip(k);
    let behind = replace_all(s.skip(m), pat, rep);
    lemma_token_chars();
    lemma_token_shape(u);
    lemma_token_shape(pat);
    if k == m {
        assert(u.skip(k) + behind == behind);
    } else {
        assert(x[0] == s[k]);
        assert(s.subrange(0, m)[k] == s[k]);
        assert(s.subrange(0, m)[1] == s[1]);
        if x.len() >= n {
            assert(x.take(n)[0] == x[0]);
            if k == 0 {
                assert(x.take(n)[1] == s[1]);
                assert(u[1] != pat[1]);
            } else if k < m - 1 {
                assert(is_tag_char(u[k]));
            }
            assert(x.take(n) != pat);
            lemma_replace_passes_token(s, u, pat, rep, k + 1);
            assert(x.skip(1) == s.skip(k + 1));
            assert(seq![u[k]] + u.skip(k + 1) == u.skip(k));
            assert(seq![x[0]] + (u.skip(k + 1) + behind) == u.skip(k) + behind);
        } else {
            assert(s.skip(m).len() < n);
            assert(behind == s.skip(m));
            assert(x =~= u.skip(k) + s.skip(m)) by {
                assert forall|i: int| 0 <= i < m - k implies x[i] == u.skip(k)[i] by {
                    assert(s.subrange(0, m)[k + i] == s[k + i]);
                }
            }
        }
    }
}

/// What stands in the result of a replacement before its first `<` stood
/// in the text as well.
pub proof fn lemma_replace_keeps_plain_prefix(
    x: Seq<char>,
    pat: Seq<char>,
    rep: Seq<char>,
    j: int,
)
    requires
        is_token(pat),
        is_token(rep),
        0 <= j <= replace_all(x, pat, rep).len(),
        forall|i: int| 0 <= i < j ==> replace_all(x, pat, rep)[i] != '<',
    ensures
        j <= x.len(),
        x.take(j) == replace_all(x, pat, rep).take(j),
    decreases j,
{
    let out = replace_all(x, pat, rep);
    let n = pat.len() as int;
    lemma_token_shape(pat);
    lemma_token_shape(rep);
    if j == 0 {
        assert(x.take(0) =~= out.take(0));
    } else if x.len() < n {
    } else if x.take(n) == pat {
        assert(out[0] == rep[0]);
    } else {
        let rest = replace_all(x.skip(1), pat, rep);
        assert(out == seq![x[0]] + rest);
        assert forall|i: int| 0 <= i < j - 1 implies rest[i] != '<' by {
            assert(out[i + 1] == rest[i]);
        }
        lemma_replace_keeps_plain_prefix(x.skip(1), pat, rep, j - 1);
        assert(x.take(j) =~= out.take(j)) by {
            assert forall|i: int| 0 <= i < j implies x.take(j)[i] == out.take(j)[i] by {
                if i > 0 {
                    assert(x.skip(1).take(j - 1)[i - 1] == rest.take(j - 1)[i - 1]);
                }
            }
        }
    }
}

/// The token that `s` begins with, where it begins with one.
pub open spec fn leading(s: Seq<char>) -> Seq<char> {
    if occurs_at(s, var_token(), 0) {
        var_token()
    } else if occurs_at(s, integer_token(), 0) {
        integer_token()
    } else {
        code_str_token()
    }
}

/// A text that begins with the token to replace: the replacement stands
/// for it, and both count as one hole.
proof fn lemma_hole_count_at_match(s: Seq<char>, pat: Seq<char>, rep: Seq<char>)
    requires
        is_token(pat),
        is_token(rep),
        s.len() >= pat.len(),
        s.take(pat.len() as int) == pat,
        hole_count(replace_all(s.skip(pat.len() as int), pat, rep)) == hole_count(
            s.skip(pat.len() as int),
        ),
    ensures
        hole_count(replace_all(s, pat, rep)) == hole_count(s),
{
    let n = pat.len() as int;
    let out = replace_all(s, pat, rep);
    let rest = replace_all(s.skip(n), pat, rep);
    lemma_token_shape(pat);
    lemma_token_shape(rep);
    assert(s.subrange(0, n) == s.take(n));
    lemma_leading_token(s, pat);
    assert(out == rep + rest);
    assert(out.subrange(0, rep.len() as int) == rep);
    lemma_leading_token(out, rep);
    assert(out.skip(rep.len() as int) == rest);
}

/// A text that begins with another token: the replacement passes over it,
/// and it counts as one hole before and after.
proof fn lemma_hole_count_at_token(s: Seq<char>, pat: Seq<char>, rep: Seq<char>)
    requires
        is_token(pat),
        is_token(rep),
        leading_token(s) > 0,
        !occurs_at(s, pat, 0),
        hole_count(replace_all(s.skip(leading_token(s) as int), pat, rep)) == hole_count(
            s.skip(leading_token(s) as int),
        ),
    ensures
        hole_count(replace_all(s, pat, rep)) == hole_count(s),
{
    let out = replace_all(s, pat, rep);
    let u = leading(s);
    let m = u.len() as int;
    lemma_leading_token(s, u);
    lemma_replace_passes_token(s, u, pat, rep, 0);
    assert(s.skip(0) == s);
    assert(u.skip(0) == u);
    let behind = replace_all(s.skip(m), pat, rep);
    assert(out == u + behind);
    assert(out.subrange(0, m) == u);
    lemma_leading_token(out, u);
    assert(out.skip(m) == behind);
}

/// A text that begins with no token: neither does what the replacement
/// makes of it.
proof fn lemma_hole_count_at_plain(s: Seq<char>, pat: Seq<char>, rep: Seq<char>)
    requires
        is_token(pat),
        is_token(rep),
        s.len() >= pat.len(),
        leading_token(s) == 0,
        hole_count(replace_all(s.skip(1), pat, rep)) == hole_count(s.skip(1)),
    ensures
        hole_count(replace_all(s, pat, rep)) == hole_count(s),
{
    let n = pat.len() as int;
    let out = replace_all(s, pat, rep);
    let rest = replace_all(s.skip(1), pat, rep);
    lemma_token_shape(pat);
    assert(s.take(n) != pat) by {
        if s.take(n) == pat {
            assert(s.subrange(0, n) == s.take(n));
            lemma_leading_token(s, pat);
        }
    }
    assert(out == seq![s[0]] + rest);
    assert(out.skip(1) == rest);
    if leading_token(out) > 0 {
        let u = leading(out);
        let m = u.len() as int;
        lemma_token_shape(u);
        lemma_leading_token(out, u);
        assert forall|i: int| 0 <= i < m - 1 implies rest[i] != '<' by {
            assert(out.subrange(0, m)[i + 1] == out[i + 1]);
            assert(out[i + 1] == rest[i]);
            if i + 1 < m - 1 {
                assert(is_tag_char(u[i + 1]));
            }
        }
        lemma_replace_keeps_plain_prefix(s.skip(1), pat, rep, m - 1);
        assert(s.subrange(0, m) =~= u) by {
            assert forall|i: int| 0 <= i < m implies s.subrange(0, m)[i] == u[i] by {
                assert(out.subrange(0, m)[i] == out[i]);
                if i > 0 {
                    assert(s.skip(1).take(m - 1)[i - 1] == rest.take(m - 1)[i - 1]);
                }
            }
        }
        lemma_leading_token(s, u);
    }
}

/// Replacing every occurrence of one hole token by another leaves the
/// number of holes as it was.
pub proof fn lemma_replace_keeps_hole_count(s: Seq<char>, pat: Seq<char>, rep: Seq<char>)
    requires
        is_token(pat),
        is_token(rep),
    ensures
        hole_count(replace_all(s, pat, rep)) == hole_count(s),
    decreases s.len(),
{
    let n = pat.len() as int;
    lemma_token_shape(pat);
    if s.len() < n {
    } else if s.take(n) == pat {
        lemma_replace_keeps_hole_count(s.skip(n), pat, rep);
        lemma_hole_count_at_match(s, pat, rep);
    } else if leading_token(s) > 0 {
        lemma_leading_token(s, leading(s));
        assert(!occurs_at(s, pat, 0)) by {
            assert(s.subrange(0, n) == s.take(n));
        }
        lemma_replace_keeps_hole_count(s.skip(leading_token(s) as int), pat, rep);
        lemma_hole_count_at_token(s, pat, rep);
    } else {
        lemma_replace_keeps_hole_count(s.skip(1), pat, rep);
        lemma_hole_count_at_plain(s, pat, rep);
    }
}

/// A part of a closed text is closed.
pub proof fn lemma_closed_part(s: Seq<char>, from: int, to: int)
    requires
        closed(s),
        0 <= from <= to <= s.len(),
    ensures
        closed(s.subrange(from, to)),
{
    let part = s.subrange(from, to);
    assert forall|i: int, n: int| #[trigger] tag_at(part, i, n) implies is_token(
        part.subrange(i, i + n + 2),
    ) by {
        assert(part[i] == s[from + i]);
        assert(part[i + n + 1] == s[from + i + n + 1]);
        assert forall|k: int| from + i < k <= from + i + n implies is_tag_char(#[trigger] s[k]) by {
            assert(part[k - from] == s[k]);
        }
        assert(tag_at(s, from + i, n));
        assert(part.subrange(i, i + n + 2) == s.subrange(from + i, from + i + n + 2));
    }
}

/// Putting a hole token in the place of any part of a closed text leaves it
/// closed.
pub proof fn lemma_splice_keeps_closed(s: Seq<char>, a: int, b: int, t: Seq<char>)
    requires
        closed(s),
        0 <= a <= b <= s.len(),
        is_token(t),
    ensures
        closed(splice(s, a, b, t)),
{
    let r = splice(s, a, b, t);
    let end = a + t.len();
    lemma_token_shape(t);
    assert forall|i: int, n: int| #[trigger] tag_at(r, i, n) implies is_token(
        r.subrange(i, i + n + 2),
    ) by {
        let e = i + n + 1;
        if e < a {
            assert(r[i] == s[i]);
            assert(r[e] == s[e]);
            assert forall|k: int| i < k <= i + n implies is_tag_char(#[trigger] s[k]) by {
                assert(r[k] == s[k]);
            }
            assert(tag_at(s, i, n));
            assert(r.subrange(i, e + 1) == s.subrange(i, e + 1));
        } else if i >= end {
            let shift = b - end;
            assert(r[i] == s[i + shift]);
            assert(r[e] == s[e + shift]);
            assert forall|k: int| i + shift < k <= i + shift + n implies is_tag_char(
                #[trigger] s[k],
            ) by {
                assert(r[k - shift] == s[k]);
            }
            assert(tag_at(s, i + shift, n));
            assert(r.subrange(i, e + 1) == s.subrange(i + shift, e + shift + 1));
        } else if i < a {
            assert(r[a] == t[0]);
            if a < e {
                assert(is_tag_char(r[a]));
            }
        } else if i == a {
            let last = end - 1;
            assert(r[last] == t[t.len() - 1]);
            if e < last {
                assert(r[e] == t[e - a]);
                assert(is_tag_char(t[e - a]));
            } else if e > last {
                assert(is_tag_char(r[last]));
            } else {
                assert(r.subrange(i, e + 1) == t);
            }
        } else {
            assert(r[i] == t[i - a]);
            if i < end - 1 {
                assert(is_tag_char(t[i - a]));
            }
        }
    }
}

/// Two texts with a character between them that stands in no tag are
/// closed together exactly when each of them is.
pub proof fn lemma_closed_across(a: Seq<char>, c: char, b: Seq<char>)
    requires
        !is_tag_char(c),
        c != '<',
        c != '>',
    ensures
        closed(a + seq![c] + b) <==> closed(a) && closed(b),
{
    let r = a + seq![c] + b;
    let mid = a.len() as int;
    assert(r[mid] == c);
    if closed(r) {
        assert(a == r.subrange(0, mid));
        assert(b == r.subrange(mid + 1, r.len() as int));
        lemma_closed_part(r, 0, mid);
        lemma_closed_part(r, mid + 1, r.len() as int);
    }
    if closed(a) && closed(b) {
        assert forall|i: int, n: int| #[trigger] tag_at(r, i, n) implies is_token(
            r.subrange(i, i + n + 2),
        ) by {
            let e = i + n + 1;
            if e < mid {
                assert(r[i] == a[i]);
                assert(r[e] == a[e]);
                assert forall|k: int| i < k <= i + n implies is_tag_char(#[trigger] a[k]) by {
                    assert(r[k] == a[k]);
                }
                assert(tag_at(a, i, n));
                assert(r.subrange(i, e + 1) == a.subrange(i, e + 1));
            } else if i > mid {
                let j = i - mid - 1;
                assert(r[i] == b[j]);
                assert(r[e] == b[j + n + 1]);
                assert forall|k: int| j < k <= j + n implies is_tag_char(#[trigger] b[k]) by {
                    assert(r[k + mid + 1] == b[k]);
                }
                assert(tag_at(b, j, n));
                assert(r.subrange(i, e + 1) == b.subrange(j, j + n + 2));
            } else if i < mid && mid < e {
                assert(is_tag_char(r[mid]));
            }
        }
    }
}

/// Lines are closed together exactly when each of them is.
pub proof fn lemma_closed_lines(lines: Seq<Seq<char>>)
    ensures
        closed(join_lines(lines)) <==> forall|k: int|
            0 <= k < lines.len() ==> closed(#[trigger] lines[k]),
    decreases lines.len(),
{
    if lines.len() == 0 {
    } else if lines.len() == 1 {
    } else {
        let front = lines.drop_last();
        lemma_closed_lines(front);
        lemma_closed_across(join_lines(front), '\n', lines.last());
        if closed(join_lines(lines)) {
            assert forall|k: int| 0 <= k < lines.len() implies closed(#[trigger] lines[k]) by {
                if k < front.len() {
                    assert(front[k] == lines[k]);
                }
            }
        }
        if forall|k: int| 0 <= k < lines.len() ==> closed(#[trigger] lines[k]) {
            assert forall|k: int| 0 <= k < front.len() implies closed(#[trigger] front[k]) by {
                assert(front[k] == lines[k]);
            }
            assert(closed(lines[lines.len() - 1]));
        }
    }
}

/// A text without `>` behind a closed text leaves it closed.
pub proof fn lemma_append_plain(q: Seq<char>, piece: Seq<char>)
    requires
        closed(q),
        free_of(piece, '>'),
    ensures
        closed(q + piece),
{
    let r = q + piece;
    assert forall|i: int, n: int| #[trigger] tag_at(r, i, n) implies is_token(
        r.subrange(i, i + n + 2),
    ) by {
        let e = i + n + 1;
        if e >= q.len() {
            assert(r[e] == piece[e - q.len()]);
        } else {
            assert(r[i] == q[i]);
            assert(r[e] == q[e]);
            assert forall|k: int| i < k <= i + n implies is_tag_char(#[trigger] q[k]) by {
                assert(r[k] == q[k]);
            }
            assert(tag_at(q, i, n));
            assert(r.subrange(i, e + 1) == q.subrange(i, e + 1));
        }
    }
}

/// A hole token behind a closed text leaves it closed.
pub proof fn lemma_append_token(q: Seq<char>, t: Seq<char>)
    requires
        closed(q),
        is_token(t),
    ensures
        closed(q + t),
{
    lemma_splice_keeps_closed(q, q.len() as int, q.len() as int, t);
    assert(splice(q, q.len() as int, q.len() as int, t) == q + t);
}

/// Each statement that the insertion puts in is closed.
pub proof fn lemma_statements_closed()
    ensures
        statements().len() == 6,
        forall|k: int| 0 <= k < 6 ==> closed(#[trigger] statements()[k]),
        closed(plain_statement()),
{
    let var = var_token();
    let num = integer_token();
    let code = code_str_token();
    let none = Seq::<char>::empty();
    assert(closed(none));
    reveal_strlit("<var>");
    reveal_strlit("<integer>");
    reveal_strlit("<code_str>");
    assert(statements()[0] == plain_statement());
    assert(closed(statements()[0])) by {
        reveal_strlit("let <var> = <integer>;");
        reveal_strlit("let ");
        reveal_strlit(" = ");
        reveal_strlit(";");
        let s = "let "@ + var + " = "@ + num + ";"@;
        assert(statements()[0] =~= s);
        lemma_append_plain(none, "let "@);
        lemma_append_token(none + "let "@, var);
        lemma_append_plain(none + "let "@ + var, " = "@);
        lemma_append_token(none + "let "@ + var + " = "@, num);
        lemma_append_plain(none + "let "@ + var + " = "@ + num, ";"@);
        assert(none + "let "@ + var + " = "@ + num + ";"@ =~= s);
    }
    assert(closed(statements()[1])) by {
        reveal_strlit("const <var> = <integer>;");
        reveal_strlit("const ");
        reveal_strlit(" = ");
        reveal_strlit(";");
        let s = "const "@ + var + " = "@ + num + ";"@;
        assert(statements()[1] =~= s);
        lemma_append_plain(none, "const "@);
        lemma_append_token(none + "const "@, var);
        lemma_append_plain(none + "const "@ + var, " = "@);
        lemma_append_token(none + "const "@ + var + " = "@, num);
        lemma_append_plain(none + "const "@ + var + " = "@ + num, ";"@);
        assert(none + "const "@ + var + " = "@ + num + ";"@ =~= s);
    }
    assert(closed(statements()[2])) by {
        reveal_strlit("function <var>(){ return <integer>; } <var>();");
        reveal_strlit("function ");
        reveal_strlit("(){ return ");
        reveal_strlit("; } ");
        reveal_strlit("();");
        let s = "function "@ + var + "(){ return "@ + num + "; } "@ + var + "();"@;
        assert(statements()[2] =~= s);
        lemma_append_plain(none, "function "@);
        lemma_append_token(none + "function "@, var);
        lemma_append_plain(none + "function "@ + var, "(){ return "@);
        lemma_append_token(none + "function "@ + var + "(){ return "@, num);
        lemma_append_plain(none + "function "@ + var + "(){ return "@ + num, "; } "@);
        lemma_append_token(none + "function "@ + var + "(){ return "@ + num + "; } "@, var);
        lemma_append_plain(
            none + "function "@ + var + "(){ return "@ + num + "; } "@ + var,
            "();"@,
        );
        assert(none + "function "@ + var + "(){ return "@ + num + "; } "@ + var + "();"@ =~= s);
    }
    assert(closed(statements()[3])) by {
        reveal_strlit("try { <var> = <integer>; } catch (e) {}");
        reveal_strlit("try { ");
        reveal_strlit(" = ");
        reveal_strlit("; } catch (e) {}");
        let s = "try { "@ + var + " = "@ + num + "; } catch (e) {}"@;
        assert(statements()[3] =~= s);
        lemma_append_plain(none, "try { "@);
        lemma_append_token(none + "try { "@, var);
        lemma_append_plain(none + "try { "@ + var, " = "@);
        lemma_append_token(none + "try { "@ + var + " = "@, num);
        lemma_append_plain(none + "try { "@ + var + " = "@ + num, "; } catch (e) {}"@);
        assert(none + "try { "@ + var + " = "@ + num + "; } catch (e) {}"@ =~= s);
    }
    assert(closed(statements()[4])) by {
        reveal_strlit("for (let <var> = 0; <var> < <integer>; <var>++) { }");
        reveal_strlit("for (let ");
        reveal_strlit(" = 0; ");
        reveal_strlit(" < ");
        reveal_strlit("; ");
        reveal_strlit("++) { }");
        let s = "for (let "@ + var + " = 0; "@ + var + " < "@ + num + "; "@ + var + "++) { }"@;
        assert(statements()[4] =~= s);
        lemma_append_plain(none, "for (let "@);
        lemma_append_token(none + "for (let "@, var);
        lemma_append_plain(none + "for (let "@ + var, " = 0; "@);
        lemma_append_token(none + "for (let "@ + var + " = 0; "@, var);
        lemma_append_plain(none + "for (let "@ + var + " = 0; "@ + var, " < "@);
        lemma_append_token(none + "for (let "@ + var + " = 0; "@ + var + " < "@, num);
        lemma_append_plain(none + "for (let "@ + var + " = 0; "@ + var + " < "@ + num, "; "@);
        lemma_append_token(
            none + "for (let "@ + var + " = 0; "@ + var + " < "@ + num + "; "@,
            var,
        );
        lemma_append_plain(
            none + "for (let "@ + var + " = 0; "@ + var + " < "@ + num + "; "@ + var,
            "++) { }"@,
        );
        assert(none + "for (let "@ + var + " = 0; "@ + var + " < "@ + num + "; "@ + var
            + "++) { }"@ =~= s);
    }
    assert(closed(statements()[5])) by {
        reveal_strlit("({ toString(){ return <code_str>; } });");
        reveal_strlit("({ toString(){ return ");
        reveal_strlit("; } });");
        let s = "({ toString(){ return "@ + code + "; } });"@;
        assert(statements()[5] =~= s);
        lemma_append_plain(none, "({ toString(){ return "@);
        lemma_append_token(none + "({ toString(){ return "@, code);
        lemma_append_plain(none + "({ toString(){ return "@ + code, "; } });"@);
        assert(none + "({ toString(){ return "@ + code + "; } });"@ =~= s);
    }
}

/// Fusing keeps closed templates closed.
pub proof fn lemma_fused_closed(a: Seq<char>, b: Seq<char>)
    requires
        closed(a),
        closed(b),
    ensures
        closed(fused(a, b)),
{
    lemma_closed_across(a, '\n', b);
}

/// Replacing every occurrence of a pattern by a hole token keeps what is
/// closed closed, whatever stands before.
pub proof fn lemma_replace_all_keeps_closed(
    before: Seq<char>,
    s: Seq<char>,
    pat: Seq<char>,
    token: Seq<char>,
)
    requires
        is_token(token),
        closed(before + s),
    ensures
        closed(before + replace_all(s, pat, token)),
    decreases s.len(),
{
    if pat.len() == 0 || s.len() < pat.len() {
    } else if s.take(pat.len() as int) == pat {
        let rest = s.skip(pat.len() as int);
        let whole = before + s;
        lemma_splice_keeps_closed(
            whole,
            before.len() as int,
            (before.len() + pat.len()) as int,
            token,
        );
        let cut = (before.len() + pat.len()) as int;
        assert(splice(whole, before.len() as int, cut, token) == before + token + rest);
        lemma_replace_all_keeps_closed(before + token, rest, pat, token);
        assert(before + token + replace_all(rest, pat, token) == before + (token + replace_all(
            rest,
            pat,
            token,
        )));
    } else {
        let rest = s.skip(1);
        assert(before + seq![s[0]] + rest == before + s);
        lemma_replace_all_keeps_closed(before + seq![s[0]], rest, pat, token);
        assert(before + seq![s[0]] + replace_all(rest, pat, token) == before + (seq![s[0]]
            + replace_all(rest, pat, token)));
    }
}

/// Substituting one hole token for another keeps a closed template closed.
pub proof fn lemma_substitution_closed(a: Seq<char>, b: Seq<char>)
    requires
        closed(a),
        is_substitution(a, b),
    ensures
        closed(b),
{
    let (i, j) = choose|i: int, j: int|
        0 <= i < 3 && 0 <= j < 3 && b == replace_all(a, vocabulary()[i], vocabulary()[j]);
    let none = Seq::<char>::empty();
    assert(none + a == a);
    lemma_replace_all_keeps_closed(none, a, vocabulary()[i], vocabulary()[j]);
    assert(none + b == b);
}

/// Putting a closed line between the lines of a closed template keeps it
/// closed.
pub proof fn lemma_with_line_closed(s: Seq<char>, idx: int, line: Seq<char>)
    requires
        closed(s),
        closed(line),
        0 <= idx <= split_lines(s).len(),
    ensures
        closed(with_line(s, idx, line)),
{
    let lines = split_lines(s);
    lemma_join_split(s);
    lemma_closed_lines(lines);
    let more = lines.insert(idx, line);
    assert forall|k: int| 0 <= k < more.len() implies closed(#[trigger] more[k]) by {
        if k < idx {
            assert(more[k] == lines[k]);
        } else if k > idx {
            assert(more[k] == lines[k - 1]);
        }
    }
    lemma_closed_lines(more);
}

/// Putting a closed text on a line of its own into a closed template keeps
/// it closed.
pub proof fn lemma_inserted_closed(s: Seq<char>, k: int, text: Seq<char>)
    requires
        closed(s),
        closed(text),
        0 <= k <= s.len(),
    ensures
        closed(inserted_at(s, k, text)),
{
    let head = s.take(k);
    let tail = s.skip(k);
    let a = if head.len() > 0 && head.last() == '\n' {
        head.drop_last()
    } else {
        head
    };
    let b = if text.len() > 0 && text.last() == '\n' {
        text.drop_last()
    } else {
        text
    };
    assert(a == s.subrange(0, a.len() as int));
    assert(b == text.subrange(0, b.len() as int));
    assert(tail == s.subrange(k, s.len() as int));
    lemma_closed_part(s, 0, a.len() as int);
    lemma_closed_part(text, 0, b.len() as int);
    lemma_closed_part(s, k, s.len() as int);
    lemma_closed_across(a, '\n', b);
    lemma_closed_across(a + seq!['\n'] + b, '\n', tail);
    assert(inserted_at(s, k, text) =~= a + seq!['\n'] + b + seq!['\n'] + tail);
}

/// Inserting a statement keeps a closed template closed.
pub proof fn lemma_insertion_closed(a: Seq<char>, b: Seq<char>)
    requires
        closed(a),
        is_insertion(a, b),
    ensures
        closed(b),
{
    lemma_statements_closed();
    if is_point_insertion(a, b) {
        let tree = choose|tree: Tree|
            recording(&tree) is Some && is_insertion_at_point(a, b, recording(&tree)->0);
        let nodes = recording(&tree)->0;
        let (p, k) = choose|p: int, k: int|
            0 <= p < insertion_points(nodes).len() && 0 <= k < 6 && b == inserted_at(
                a,
                chars_before(a, insertion_points(nodes)[p].start_byte as int),
                statements()[k],
            );
        let offset = insertion_points(nodes)[p].start_byte as int;
        lemma_chars_before_bounds(a, offset);
        lemma_inserted_closed(a, chars_before(a, offset), statements()[k]);
    } else {
        assert(is_line_insertion(a, b));
        let idx = choose|idx: int|
            0 <= idx <= split_lines(a).len() && b == with_line(a, idx, plain_statement());
        lemma_with_line_closed(a, idx, plain_statement());
    }
}

/// One edit that puts in a hole token keeps a closed text closed.
pub proof fn lemma_edited_closed(s: Seq<char>, e: Edit)
    requires
        closed(s),
        is_token(e.token@),
    ensures
        closed(edited(s, e)),
{
    lemma_chars_before_bounds(s, e.start_byte as int);
    lemma_chars_before_bounds(s, e.end_byte as int);
    let from = chars_before(s, e.start_byte as int);
    let to = chars_before(s, e.end_byte as int);
    lemma_splice_keeps_closed(
        s,
        from,
        if from <= to {
            to
        } else {
            from
        },
        e.token@,
    );
}

/// Edits that put in hole tokens keep a closed text closed.
pub proof fn lemma_edited_all_closed(s: Seq<char>, edits: Seq<Edit>)
    requires
        closed(s),
        all_tokens(edits),
    ensures
        closed(edited_all(s, edits)),
    decreases edits.len(),
{
    if edits.len() > 0 {
        let front = edits.drop_last();
        assert forall|k: int| 0 <= k < front.len() implies is_token(
            (#[trigger] front[k]).token@,
        ) by {
            assert(front[k] == edits[k]);
        }
        lemma_edited_all_closed(s, front);
        assert(is_token(edits[edits.len() - 1].token@));
        lemma_edited_closed(edited_all(s, front), edits.last());
    }
}

/// The planned edits put in hole tokens.
pub proof fn lemma_planned_tokens(nodes: Seq<SyntaxNode>, accept: Seq<bool>, upto: int)
    ensures
        all_tokens(planned_edits(nodes, accept, upto)),
    decreases upto,
{
    if upto > 0 {
        lemma_planned_tokens(nodes, accept, upto - 1);
        let rest = planned_edits(nodes, accept, upto - 1);
        let all = planned_edits(nodes, accept, upto);
        assert forall|k: int| 0 <= k < all.len() implies is_token((#[trigger] all[k]).token@) by {
            if k < rest.len() {
                assert(all[k] == rest[k]);
            }
        }
    }
}

/// Putting an edit in its place keeps a list of token edits one.
pub proof fn lemma_placed_tokens(sorted: Seq<Edit>, e: Edit)
    requires
        all_tokens(sorted),
        is_token(e.token@),
    ensures
        all_tokens(placed(sorted, e)),
    decreases sorted.len(),
{
    let all = placed(sorted, e);
    if sorted.len() == 0 {
    } else if sorted.last().start_byte >= e.start_byte {
        assert forall|k: int| 0 <= k < all.len() implies is_token((#[trigger] all[k]).token@) by {
            if k < sorted.len() {
                assert(all[k] == sorted[k]);
            }
        }
    } else {
        let front = sorted.drop_last();
        assert forall|k: int| 0 <= k < front.len() implies is_token(
            (#[trigger] front[k]).token@,
        ) by {
            assert(front[k] == sorted[k]);
        }
        lemma_placed_tokens(front, e);
        let inner = placed(front, e);
        assert(is_token(sorted[sorted.len() - 1].token@));
        assert forall|k: int| 0 <= k < all.len() implies is_token((#[trigger] all[k]).token@) by {
            if k < inner.len() {
                assert(all[k] == inner[k]);
            }
        }
    }
}

/// Ordering edits keeps a list of token edits one.
pub proof fn lemma_ordered_tokens(edits: Seq<Edit>)
    requires
        all_tokens(edits),
    ensures
        all_tokens(rightmost_first(edits)),
    decreases edits.len(),
{
    if edits.len() > 0 {
        let front = edits.drop_last();
        assert forall|k: int| 0 <= k < front.len() implies is_token(
            (#[trigger] front[k]).token@,
        ) by {
            assert(front[k] == edits[k]);
        }
        lemma_ordered_tokens(front);
        assert(is_token(edits[edits.len() - 1].token@));
        lemma_placed_tokens(rightmost_first(front), edits.last());
    }
}

/// The template that a tree gives for a closed source is closed.
pub proof fn lemma_extracted_closed(src: Seq<char>, nodes: Seq<SyntaxNode>, accept: Seq<bool>)
    requires
        closed(src),
    ensures
        closed(extracted(src, nodes, accept)),
{
    let planned = planned_edits(nodes, accept, nodes.len() as int);
    lemma_planned_tokens(nodes, accept, nodes.len() as int);
    lemma_ordered_tokens(planned);
    lemma_edited_all_closed(src, rightmost_first(planned));
}

} // verus!
