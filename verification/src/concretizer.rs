//! From a template to a runnable program.
use crate::pattern::{capture_groups, captured, compile, compiles};
use crate::random::{between, pick};
use crate::template::{
    code_str_token, hole_free, integer_token, lemma_token_chars, var_token, Template,
};
use crate::text::{
    contains, count_char, find, first_occurrence, free_of, from_chars, lacks,
    lemma_count_present, lemma_decimal_digits, lemma_splice_lowers_count, occurs_at, same_text,
    signed_decimal, signed_numeral, splice, splice_chars, to_chars, views,
};
use rand::rngs::StdRng;
use vstd::prelude::*;

verus! {

/// Fills the holes of a template.
pub struct Concretizer;

/// The least integer that fills an integer hole.
pub const INTEGER_MIN: i32 = -10_000;

/// The greatest integer that fills an integer hole.
pub const INTEGER_MAX: i32 = 10_000;

/// The expression for an identifier.
pub open spec fn identifier_pattern() -> Seq<char> {
    "\\b([A-Za-z_]\\w*)\\b"@
}

/// The words that are never offered as identifiers.
pub open spec fn is_keyword(name: Seq<char>) -> bool {
    name == "let"@ || name == "const"@ || name == "var"@ || name == "function"@ || name
        == "class"@ || name == "try"@ || name == "catch"@ || name == "for"@ || name == "return"@
}

/// The names that are always offered.
pub open spec fn spare_names() -> Seq<Seq<char>> {
    seq!["a"@, "b"@, "c"@, "x"@, "y"@, "z"@, "tmp"@, "obj"@, "v"@]
}

/// The quoted snippets that fill a code hole.
pub open spec fn snippets() -> Seq<Seq<char>> {
    seq!["\"let k = 1;\""@, "\"class C{}\""@, "\"({a:1})\""@, "\"function f(){}\""@]
}

/// A name that may fill an identifier hole: no keyword, and free of `<`.
pub open spec fn usable(name: Seq<char>) -> bool {
    !is_keyword(name) && free_of(name, '<')
}

/// The usable names among the first groups of the matches, in order.
pub open spec fn names_among(matches: Seq<Seq<Option<Seq<char>>>>) -> Seq<Seq<char>>
    decreases matches.len(),
{
    if matches.len() == 0 {
        Seq::<Seq<char>>::empty()
    } else {
        let rest = names_among(matches.drop_last());
        let groups = matches.last();
        if groups.len() > 1 && groups[1] is Some && usable(groups[1]->0) {
            rest.push(groups[1]->0)
        } else {
            rest
        }
    }
}

/// The identifiers offered for the holes of `text`: the usable identifiers
/// that occur in it, one entry for each occurrence, and then the spare names.
pub open spec fn pool_for(text: Seq<char>) -> Seq<Seq<char>> {
    if compiles(identifier_pattern()) {
        names_among(captured(identifier_pattern(), text)) + spare_names()
    } else {
        spare_names()
    }
}

/// `b` is `a` with its leftmost integer hole filled by the numeral of an
/// integer in range.
pub open spec fn fills_integer(a: Seq<char>, b: Seq<char>) -> bool {
    exists|i: int, v: int|
        first_occurrence(a, integer_token(), i) && INTEGER_MIN <= v <= INTEGER_MAX && b == splice(
            a,
            i,
            i + integer_token().len(),
            signed_decimal(v),
        )
}

/// `b` is `a` with one hole filled. While there is an integer hole, the
/// leftmost one is filled, by the numeral of an integer in range; else the
/// leftmost identifier hole, by a name of `pool`; else the leftmost code
/// hole, by one of the snippets.
pub open spec fn fills(a: Seq<char>, b: Seq<char>, pool: Seq<Seq<char>>) -> bool {
    ||| fills_integer(a, b)
    ||| !contains(a, integer_token()) && exists|i: int, k: int|
        first_occurrence(a, var_token(), i) && 0 <= k < pool.len() && b == splice(
            a,
            i,
            i + var_token().len(),
            pool[k],
        )
    ||| !contains(a, integer_token()) && !contains(a, var_token()) && exists|i: int, k: int|
        first_occurrence(a, code_str_token(), i) && 0 <= k < snippets().len() && b == splice(
            a,
            i,
            i + code_str_token().len(),
            snippets()[k],
        )
}

/// Each text of `trace` but the last is followed by one in which one more
/// hole is filled.
pub open spec fn is_derivation(trace: Seq<Seq<char>>, pool: Seq<Seq<char>>) -> bool {
    trace.len() >= 1 && forall|j: int|
        0 <= j < trace.len() - 1 ==> fills(#[trigger] trace[j], trace[j + 1], pool)
}

/// `program` comes from `template` by filling one hole after the other. The
/// identifiers are taken from the pool of the text as it stands when its
/// integer holes are filled for the first time.
pub open spec fn concretizes(template: Seq<char>, program: Seq<char>) -> bool {
    exists|trace: Seq<Seq<char>>, base: int|
        {
            &&& 0 <= base < trace.len()
            &&& trace[0] == template
            &&& trace.last() == program
            &&& is_derivation(trace, pool_for(trace[base]))
            &&& !contains(trace[base], integer_token())
            &&& forall|j: int| 0 <= j < base ==> contains(#[trigger] trace[j], integer_token())
        }
}

/// No snippet holds a `<`.
pub proof fn lemma_snippets_plain()
    ensures
        snippets().len() == 4,
        forall|k: int| 0 <= k < 4 ==> free_of(#[trigger] snippets()[k], '<'),
{
    reveal_strlit("\"let k = 1;\"");
    reveal_strlit("\"class C{}\"");
    reveal_strlit("\"({a:1})\"");
    reveal_strlit("\"function f(){}\"");
}

/// No spare name holds a `<`.
pub proof fn lemma_spare_names_plain()
    ensures
        spare_names().len() == 9,
        forall|k: int| 0 <= k < 9 ==> free_of(#[trigger] spare_names()[k], '<'),
{
    reveal_strlit("a");
    reveal_strlit("b");
    reveal_strlit("c");
    reveal_strlit("x");
    reveal_strlit("y");
    reveal_strlit("z");
    reveal_strlit("tmp");
    reveal_strlit("obj");
    reveal_strlit("v");
}

/// Every hole token holds a `<`.
pub proof fn lemma_tokens_hold_bracket()
    ensures
        count_char(var_token(), '<') >= 1,
        count_char(integer_token(), '<') >= 1,
        count_char(code_str_token(), '<') >= 1,
{
    lemma_token_chars();
    lemma_count_present(var_token(), '<', 0);
    lemma_count_present(integer_token(), '<', 0);
    lemma_count_present(code_str_token(), '<', 0);
}

/// Whether `name` is one of the words that are never offered.
pub fn keyword(name: &str) -> (b: bool)
    ensures
        b == is_keyword(name@),
{
    same_text(name, "let") || same_text(name, "const") || same_text(name, "var") || same_text(
        name,
        "function",
    ) || same_text(name, "class") || same_text(name, "try") || same_text(name, "catch")
        || same_text(name, "for") || same_text(name, "return")
}

/// The quoted snippets that fill a code hole.
pub fn snippet_list() -> (r: Vec<&'static str>)
    ensures
        r@.len() == 4,
        forall|k: int| 0 <= k < 4 ==> (#[trigger] r@[k])@ == snippets()[k],
{
    let mut r: Vec<&'static str> = Vec::new();
    r.push("\"let k = 1;\"");
    r.push("\"class C{}\"");
    r.push("\"({a:1})\"");
    r.push("\"function f(){}\"");
    r
}

/// The usable names among the first groups of the matches, in order.
pub fn usable_names(matches: &Vec<Vec<Option<String>>>) -> (r: Vec<String>)
    ensures
        views(r@) == names_among(matches.deep_view()),
{
    let mut names: Vec<String> = Vec::new();
    let mut i: usize = 0;
    assert(matches.deep_view().take(0) == Seq::<Seq<Option<Seq<char>>>>::empty());
    while i < matches.len()
        invariant
            i <= matches.len(),
            views(names@) == names_among(matches.deep_view().take(i as int)),
        decreases matches.len() - i,
    {
        let ghost upto = matches.deep_view().take(i + 1);
        assert(upto.drop_last() == matches.deep_view().take(i as int));
        assert(upto.last() == matches@[i as int].deep_view());
        let groups = &matches[i];
        let ghost before = views(names@);
        if groups.len() > 1 {
            assert(groups.deep_view()[1] == groups@[1].deep_view());
            match &groups[1] {
                Some(name) => {
                    let chars = to_chars(name.as_str());
                    if !keyword(name.as_str()) && lacks(&chars, '<') {
                        names.push(name.clone());
                        assert(views(names@) == before.push(name@));
                    }
                },
                None => {},
            }
        }
        i += 1;
    }
    assert(matches.deep_view().take(matches.len() as int) == matches.deep_view());
    names
}

/// The identifiers offered for the holes of `text`.
pub fn identifier_pool(text: &str) -> (r: Vec<String>)
    ensures
        views(r@) == pool_for(text@),
        r.len() >= 9,
        forall|k: int| 0 <= k < r.len() ==> free_of(#[trigger] r@[k]@, '<'),
{
    let mut pool: Vec<String> = match compile("\\b([A-Za-z_]\\w*)\\b") {
        Ok(re) => {
            let matches = capture_groups(&re, text);
            usable_names(&matches)
        },
        Err(_) => Vec::new(),
    };
    let ghost found = views(pool@);
    proof {
        lemma_names_usable(captured(identifier_pattern(), text@));
    }
    pool.push("a".to_owned());
    pool.push("b".to_owned());
    pool.push("c".to_owned());
    pool.push("x".to_owned());
    pool.push("y".to_owned());
    pool.push("z".to_owned());
    pool.push("tmp".to_owned());
    pool.push("obj".to_owned());
    pool.push("v".to_owned());
    proof {
        lemma_spare_names_plain();
        assert(views(pool@) =~= found + spare_names());
        assert forall|k: int| 0 <= k < pool.len() implies free_of(#[trigger] pool@[k]@, '<') by {
            assert(views(pool@)[k] == pool@[k]@);
            if k >= found.len() {
                assert(pool@[k]@ == spare_names()[k - found.len()]);
            } else {
                assert(pool@[k]@ == found[k]);
            }
        }
    }
    pool
}

/// Every name among the matches is usable.
pub proof fn lemma_names_usable(matches: Seq<Seq<Option<Seq<char>>>>)
    ensures
        forall|k: int|
            0 <= k < names_among(matches).len() ==> usable(#[trigger] names_among(matches)[k]),
    decreases matches.len(),
{
    if matches.len() > 0 {
        lemma_names_usable(matches.drop_last());
        let rest = names_among(matches.drop_last());
        assert forall|k: int| 0 <= k < names_among(matches).len() implies usable(
            #[trigger] names_among(matches)[k],
        ) by {
            if k < rest.len() {
                assert(names_among(matches)[k] == rest[k]);
            }
        }
    }
}

impl Concretizer {
    /// Fills every hole of the template: each integer hole with an integer
    /// from `INTEGER_MIN` to `INTEGER_MAX`, each identifier hole with a name
    /// out of the pool of the text as it stands once the integers are
    /// filled in, each code hole with one of the quoted snippets. The holes
    /// of a kind are filled from left to right, and the result holds no
    /// hole.
    pub fn concretize(tpl: &Template, rng: &mut StdRng) -> (r: String)
        ensures
            hole_free(r@),
            concretizes(tpl.source@, r@),
            hole_free(tpl.source@) ==> r@ == tpl.source@,
    {
        let integer = to_chars("<integer>");
        let var = to_chars("<var>");
        let code_str = to_chars("<code_str>");
        let snippet_list = snippet_list();
        let mut out = to_chars(tpl.source.as_str());
        let ghost mut trace: Seq<Seq<char>> = seq![out@];
        proof {
            lemma_tokens_hold_bracket();
            lemma_snippets_plain();
        }
        loop
            invariant
                integer@ == integer_token(),
                trace.len() >= 1,
                trace[0] == tpl.source@,
                trace.last() == out@,
                hole_free(tpl.source@) ==> trace.len() == 1,
                forall|j: int|
                    0 <= j < trace.len() - 1 ==> fills_integer(#[trigger] trace[j], trace[j + 1]),
                forall|j: int|
                    0 <= j < trace.len() - 1 ==> contains(#[trigger] trace[j], integer_token()),
                count_char(integer_token(), '<') >= 1,
            ensures
                !contains(out@, integer_token()),
            decreases count_char(out@, '<'),
        {
            let ghost before = trace;
            match find(&out, &integer) {
                Some(pos) => {
                    let value = between(rng, INTEGER_MIN, INTEGER_MAX);
                    let numeral = signed_numeral(value as i64);
                    assert(pos + integer.len() <= out.len());
                    let next = splice_chars(&out, pos, pos + integer.len(), &numeral);
                    proof {
                        lemma_numeral_plain(value as int);
                        lemma_splice_lowers_count(out@, integer@, pos as int, numeral@, '<');
                        assert(fills_integer(out@, next@));
                        assert(contains(out@, integer_token())) by {
                            assert(occurs_at(out@, integer_token(), pos as int));
                        }
                        trace = trace.push(next@);
                        assert forall|j: int| 0 <= j < trace.len() - 1 implies fills_integer(
                            #[trigger] trace[j],
                            trace[j + 1],
                        ) by {
                            if j < before.len() - 1 {
                                assert(trace[j] == before[j]);
                                assert(trace[j + 1] == before[j + 1]);
                            }
                        }
                        assert forall|j: int| 0 <= j < trace.len() - 1 implies contains(
                            #[trigger] trace[j],
                            integer_token(),
                        ) by {
                            if j < before.len() - 1 {
                                assert(trace[j] == before[j]);
                            } else {
                                assert(trace[j] == out@);
                            }
                        }
                        assert(!hole_free(tpl.source@)) by {
                            if before.len() == 1 {
                                assert(before[0] == tpl.source@);
                            }
                        }
                    }
                    out = next;
                },
                None => {
                    break;
                },
            }
        }
        let text = from_chars(&out);
        let pool = identifier_pool(text.as_str());
        let ghost base = trace.len() - 1;
        let ghost names = pool_for(trace[base]);
        assert(names == views(pool@));
        loop
            invariant
                integer@ == integer_token(),
                var@ == var_token(),
                code_str@ == code_str_token(),
                snippet_list@.len() == 4,
                forall|k: int| 0 <= k < 4 ==> (#[trigger] snippet_list@[k])@ == snippets()[k],
                forall|k: int| 0 <= k < 4 ==> free_of(#[trigger] snippets()[k], '<'),
                pool.len() >= 9,
                views(pool@) == names,
                forall|k: int| 0 <= k < pool.len() ==> free_of(#[trigger] pool@[k]@, '<'),
                0 <= base < trace.len(),
                names == pool_for(trace[base]),
                !contains(trace[base], integer_token()),
                forall|j: int| 0 <= j < base ==> contains(#[trigger] trace[j], integer_token()),
                trace[0] == tpl.source@,
                trace.last() == out@,
                hole_free(tpl.source@) ==> trace.len() == 1,
                is_derivation(trace, names),
                count_char(integer_token(), '<') >= 1,
                count_char(var_token(), '<') >= 1,
                count_char(code_str_token(), '<') >= 1,
            ensures
                hole_free(out@),
            decreases count_char(out@, '<'),
        {
            let ghost before = trace;
            let next: Vec<char>;
            if let Some(pos) = find(&out, &integer) {
                let value = between(rng, INTEGER_MIN, INTEGER_MAX);
                let numeral = signed_numeral(value as i64);
                assert(pos + integer.len() <= out.len());
                next = splice_chars(&out, pos, pos + integer.len(), &numeral);
                proof {
                    lemma_numeral_plain(value as int);
                    lemma_splice_lowers_count(out@, integer@, pos as int, numeral@, '<');
                    assert(fills_integer(out@, next@));
                }
            } else if let Some(pos) = find(&out, &var) {
                let name = match pick(pool.as_slice(), rng) {
                    Some(name) => name,
                    None => {
                        proof {
                            assert(false);
                        }
                        &pool[0]
                    },
                };
                let chars = to_chars(name.as_str());
                assert(pos + var.len() <= out.len());
                next = splice_chars(&out, pos, pos + var.len(), &chars);
                proof {
                    let k = choose|k: int| 0 <= k < pool@.len() && pool@[k] == *name;
                    assert(views(pool@)[k] == name@);
                    assert(free_of(pool@[k]@, '<'));
                    lemma_splice_lowers_count(out@, var@, pos as int, chars@, '<');
                    assert(fills(out@, next@, names));
                }
            } else if let Some(pos) = find(&out, &code_str) {
                let snippet = match pick(snippet_list.as_slice(), rng) {
                    Some(snippet) => *snippet,
                    None => {
                        proof {
                            assert(false);
                        }
                        snippet_list[0]
                    },
                };
                let chars = to_chars(snippet);
                assert(pos + code_str.len() <= out.len());
                next = splice_chars(&out, pos, pos + code_str.len(), &chars);
                proof {
                    let k = choose|k: int|
                        0 <= k < snippet_list@.len() && snippet_list@[k] == snippet;
                    assert(snippet_list@[k]@ == snippets()[k]);
                    assert(free_of(snippets()[k], '<'));
                    lemma_splice_lowers_count(out@, code_str@, pos as int, chars@, '<');
                    assert(fills(out@, next@, names));
                }
            } else {
                break;
            }
            proof {
                trace = trace.push(next@);
                assert forall|j: int| 0 <= j < trace.len() - 1 implies fills(
                    #[trigger] trace[j],
                    trace[j + 1],
                    names,
                ) by {
                    if j < before.len() - 1 {
                        assert(trace[j] == before[j]);
                        assert(trace[j + 1] == before[j + 1]);
                    }
                }
                assert(trace[base] == before[base]);
                assert(!hole_free(tpl.source@)) by {
                    if before.len() == 1 {
                        assert(before[0] == tpl.source@);
                    }
                }
            }
            out = next;
        }
        from_chars(&out)
    }
}

/// The numeral of an integer holds no `<`.
pub proof fn lemma_numeral_plain(v: int)
    ensures
        free_of(signed_decimal(v), '<'),
{
    if v < 0 {
        lemma_decimal_digits((-v) as nat);
    } else {
        lemma_decimal_digits(v as nat);
    }
}

} // verus!
