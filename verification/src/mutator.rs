//! The mutation operators on templates.
use crate::ast::{
    chars_before, collect_statement_nodes, insert_at_node, inserted_at, insertion_points,
    recording, some_tree_is_too_large, yields_tree, JsAst, SyntaxNode,
};
use crate::closure::{
    bracketed, closed, hole_count, lemma_deletion_keeps_bracketed, lemma_fused_closed,
    lemma_insertion_closed, lemma_replace_all_keeps_closed, lemma_replace_keeps_hole_count,
    lemma_substitution_closed, lemma_with_line_closed,
};
use crate::random::{at_most, below, pick};
use crate::template::{
    code_str_token, hole_free, integer_token, is_token, var_token, vocabulary, Template,
};
use crate::text::{
    buffers, contains, find, first_occurrence, join_lines, join_with_newline, occurs_at, push_chars,
    push_str, replace_all, replace_all_chars, splice, splice_chars, split_lines, split_on_newline,
    to_chars,
};
use rand::rngs::StdRng;
use tree_sitter::Tree;
use vstd::prelude::*;

verus! {

/// The operators that turn one template into another.
pub struct Mutator;

/// `s` without the leftmost occurrence of `pat`; `s` itself where `pat` does
/// not occur.
pub open spec fn remove_first(s: Seq<char>, pat: Seq<char>) -> Seq<char> {
    if contains(s, pat) {
        let i = choose|i: int| first_occurrence(s, pat, i);
        splice(s, i, i + pat.len(), Seq::<char>::empty())
    } else {
        s
    }
}

/// `s` without the leftmost occurrence of the first hole token, in search
/// order, that occurs in it at all.
pub open spec fn delete_first_hole(s: Seq<char>) -> Seq<char> {
    if contains(s, var_token()) {
        remove_first(s, var_token())
    } else if contains(s, integer_token()) {
        remove_first(s, integer_token())
    } else {
        remove_first(s, code_str_token())
    }
}

/// The two texts with one line feed between them.
pub open spec fn fused(a: Seq<char>, b: Seq<char>) -> Seq<char> {
    a + seq!['\n'] + b
}

/// The text whose lines are those of `s` with `line` put in as line `idx`.
pub open spec fn with_line(s: Seq<char>, idx: int, line: Seq<char>) -> Seq<char> {
    join_lines(split_lines(s).insert(idx, line))
}

/// The statement that the line-based insertion puts in.
pub open spec fn plain_statement() -> Seq<char> {
    "let <var> = <integer>;"@
}

/// The statements that the insertion at a syntax node chooses from.
pub open spec fn statements() -> Seq<Seq<char>> {
    seq![
        "let <var> = <integer>;"@,
        "const <var> = <integer>;"@,
        "function <var>(){ return <integer>; } <var>();"@,
        "try { <var> = <integer>; } catch (e) {}"@,
        "for (let <var> = 0; <var> < <integer>; <var>++) { }"@,
        "({ toString(){ return <code_str>; } });"@,
    ]
}

/// `b` is `a` with one of `statements()` put in before an insertion point
/// of the record of a tree, on a line of its own.
pub open spec fn is_insertion_at_point(a: Seq<char>, b: Seq<char>, nodes: Seq<SyntaxNode>) -> bool {
    exists|p: int, k: int|
        0 <= p < insertion_points(nodes).len() && 0 <= k < 6 && b == inserted_at(
            a,
            chars_before(a, insertion_points(nodes)[p].start_byte as int),
            statements()[k],
        )
}

/// `b` is `a` with one of `statements()` put in before an insertion point
/// of the record of a tree from the parser.
pub open spec fn is_point_insertion(a: Seq<char>, b: Seq<char>) -> bool {
    exists|tree: Tree|
        recording(&tree) is Some && is_insertion_at_point(a, b, recording(&tree)->0)
}

/// `b` is `a` with `plain_statement()` put in as a line of its own.
pub open spec fn is_line_insertion(a: Seq<char>, b: Seq<char>) -> bool {
    exists|idx: int| 0 <= idx <= split_lines(a).len() && b == with_line(a, idx, plain_statement())
}

/// `b` is `a` with a statement put in. Where the parser gives a tree for
/// `a`, the statement stands before an insertion point of its record; where
/// it gives none, or one too large to record, the plain statement is a line
/// of its own.
pub open spec fn is_insertion(a: Seq<char>, b: Seq<char>) -> bool {
    if yields_tree(a) {
        is_point_insertion(a, b) || (some_tree_is_too_large() && is_line_insertion(a, b))
    } else {
        is_line_insertion(a, b)
    }
}

/// `b` is `a` with every occurrence of one hole token replaced by one hole
/// token, which may be the same.
pub open spec fn is_substitution(a: Seq<char>, b: Seq<char>) -> bool {
    exists|i: int, j: int|
        0 <= i < 3 && 0 <= j < 3 && b == replace_all(a, vocabulary()[i], vocabulary()[j])
}

/// `b` is what one of the three operators makes of `a`.
pub open spec fn is_mutation(a: Seq<char>, b: Seq<char>) -> bool {
    is_insertion(a, b) || b == delete_first_hole(a) || is_substitution(a, b)
}

/// The leftmost occurrence of a pattern is unique.
pub proof fn lemma_first_occurrence_unique(s: Seq<char>, pat: Seq<char>, i: int, j: int)
    requires
        first_occurrence(s, pat, i),
        first_occurrence(s, pat, j),
    ensures
        i == j,
{
    if i < j {
        assert(!occurs_at(s, pat, i));
    } else if j < i {
        assert(!occurs_at(s, pat, j));
    }
}

/// The statements that the insertion at a syntax node chooses from.
pub fn statement_list() -> (r: Vec<&'static str>)
    ensures
        r@.len() == 6,
        forall|i: int| 0 <= i < 6 ==> (#[trigger] r@[i])@ == statements()[i],
{
    let mut r: Vec<&'static str> = Vec::new();
    r.push("let <var> = <integer>;");
    r.push("const <var> = <integer>;");
    r.push("function <var>(){ return <integer>; } <var>();");
    r.push("try { <var> = <integer>; } catch (e) {}");
    r.push("for (let <var> = 0; <var> < <integer>; <var>++) { }");
    r.push("({ toString(){ return <code_str>; } });");
    r
}

/// Removes the leftmost occurrence of `pat` from `s`, and says whether there
/// was one.
fn remove_first_chars(s: &Vec<char>, pat: &Vec<char>) -> (r: (bool, Vec<char>))
    ensures
        r.0 == contains(s@, pat@),
        r.1@ == remove_first(s@, pat@),
{
    match find(s, pat) {
        Some(pos) => {
            proof {
                assert(occurs_at(s@, pat@, pos as int));
                let i = choose|i: int| first_occurrence(s@, pat@, i);
                lemma_first_occurrence_unique(s@, pat@, i, pos as int);
            }
            assert(pos + pat.len() <= s.len());
            let nothing: Vec<char> = Vec::new();
            (true, splice_chars(s, pos, pos + pat.len(), &nothing))
        },
        None => {
            let mut copy: Vec<char> = Vec::new();
            push_chars(&mut copy, s);
            (false, copy)
        },
    }
}

impl Mutator {
    /// Removes one hole: the leftmost occurrence of the first token, in
    /// search order, that occurs at all. A template without holes is
    /// returned as it is.
    pub fn delete_placeholder(tpl: &Template) -> (r: Template)
        ensures
            r.source@ == delete_first_hole(tpl.source@),
            hole_free(tpl.source@) ==> r.source@ == tpl.source@,
            bracketed(tpl.source@) ==> bracketed(r.source@) && closed(r.source@),
    {
        proof {
            if bracketed(tpl.source@) {
                lemma_deletion_keeps_bracketed(tpl.source@);
            }
        }
        let s = to_chars(tpl.source.as_str());
        let toks = Template::tokens();
        let mut k: usize = 0;
        while k < 3
            invariant
                k <= 3,
                toks@.len() == 3,
                s@ == tpl.source@,
                forall|i: int| 0 <= i < 3 ==> (#[trigger] toks@[i]).0@ == vocabulary()[i],
                forall|i: int| 0 <= i < k ==> !contains(s@, #[trigger] vocabulary()[i]),
                bracketed(tpl.source@) ==> bracketed(delete_first_hole(tpl.source@)) && closed(
                    delete_first_hole(tpl.source@),
                ),
            decreases 3 - k,
        {
            let pat = to_chars(toks[k].0);
            let (found, rest) = remove_first_chars(&s, &pat);
            if found {
                proof {
                    assert(pat@ == vocabulary()[k as int]);
                    if k >= 1 {
                        assert(!contains(s@, vocabulary()[0]));
                    }
                    if k >= 2 {
                        assert(!contains(s@, vocabulary()[1]));
                    }
                }
                return Template::from_chars(&rest);
            }
            assert(pat@ == vocabulary()[k as int]);
            k += 1;
        }
        proof {
            assert(!contains(s@, vocabulary()[0]));
            assert(!contains(s@, vocabulary()[1]));
            assert(!contains(s@, vocabulary()[2]));
        }
        Template::from_chars(&s)
    }

    /// Replaces every occurrence of `from` by `to`, from left to right
    /// without overlap.
    pub fn substitute(tpl: &Template, from: &str, to: &str) -> (r: Template)
        ensures
            r.source@ == replace_all(tpl.source@, from@, to@),
            closed(tpl.source@) && is_token(to@) ==> closed(r.source@),
            is_token(from@) && is_token(to@) ==> hole_count(r.source@) == hole_count(tpl.source@),
    {
        proof {
            if is_token(from@) && is_token(to@) {
                lemma_replace_keeps_hole_count(tpl.source@, from@, to@);
            }
            if closed(tpl.source@) && is_token(to@) {
                let none = Seq::<char>::empty();
                assert(none + tpl.source@ == tpl.source@);
                lemma_replace_all_keeps_closed(none, tpl.source@, from@, to@);
                assert(none + replace_all(tpl.source@, from@, to@) == replace_all(
                    tpl.source@,
                    from@,
                    to@,
                ));
            }
        }
        let s = to_chars(tpl.source.as_str());
        let pat = to_chars(from);
        let rep = to_chars(to);
        let out = replace_all_chars(&s, &pat, &rep);
        Template::from_chars(&out)
    }

    /// Draws one token, then a second one, and replaces every occurrence of
    /// the first by the second. Where both draws give the same token the
    /// template is unchanged.
    pub fn substitute_placeholder(tpl: &Template, rng: &mut StdRng) -> (r: Template)
        ensures
            is_substitution(tpl.source@, r.source@),
            closed(tpl.source@) ==> closed(r.source@),
            hole_count(r.source@) == hole_count(tpl.source@),
    {
        let toks = Template::tokens();
        let from = pick(toks.as_slice(), rng);
        let to = pick(toks.as_slice(), rng);
        match (from, to) {
            (Some(f), Some(t)) => {
                let r = Self::substitute(tpl, f.0, t.0);
                proof {
                    let i = choose|i: int| 0 <= i < toks@.len() && toks@[i] == *f;
                    let j = choose|j: int| 0 <= j < toks@.len() && toks@[j] == *t;
                    assert(toks@[i].0@ == vocabulary()[i]);
                    assert(toks@[j].0@ == vocabulary()[j]);
                    assert(is_token(vocabulary()[i]) && is_token(vocabulary()[j]));
                    assert(is_substitution(tpl.source@, r.source@));
                    if closed(tpl.source@) {
                        lemma_substitution_closed(tpl.source@, r.source@);
                    }
                }
                r
            },
            _ => {
                proof {
                    assert(false);
                }
                Template::from_source(tpl.source.as_str())
            },
        }
    }

    /// Puts a statement with fresh holes into the template.
    ///
    /// Where the parser gives a tree for the text, one insertion point and
    /// one statement of `statements()` are drawn, and the statement is put in
    /// before the point, on a line of its own. Where it gives none, or one
    /// too large to record, a line index is drawn and `plain_statement()`
    /// becomes that line.
    pub fn insert_placeholder(tpl: &Template, rng: &mut StdRng) -> (r: Template)
        ensures
            is_insertion(tpl.source@, r.source@),
            closed(tpl.source@) ==> closed(r.source@),
    {
        let r = Self::insert_statement(tpl, rng);
        proof {
            if closed(tpl.source@) {
                lemma_insertion_closed(tpl.source@, r.source@);
            }
        }
        r
    }

    fn insert_statement(tpl: &Template, rng: &mut StdRng) -> (r: Template)
        ensures
            is_insertion(tpl.source@, r.source@),
    {
        let mut js = JsAst::default();
        let parsed = js.parse(tpl.source.as_str());
        if let Some(tree) = parsed {
            let points = collect_statement_nodes(&tree, tpl.source.as_str());
            let list = statement_list();
            let insertion = pick(list.as_slice(), rng);
            let target = pick(points.as_slice(), rng);
            match (insertion, target) {
                (Some(text), Some(node)) => {
                    let s = insert_at_node(tpl.source.as_str(), *node, *text);
                    proof {
                        let k = choose|k: int| 0 <= k < list@.len() && list@[k] == *text;
                        let p = choose|p: int| 0 <= p < points@.len() && points@[p] == *node;
                        assert(list@[k]@ == statements()[k]);
                        assert(s@ == inserted_at(
                            tpl.source@,
                            chars_before(
                                tpl.source@,
                                insertion_points(tree.nodes@)[p].start_byte as int,
                            ),
                            statements()[k],
                        ));
                        assert(is_insertion_at_point(tpl.source@, s@, tree.nodes@));
                        let given = choose|given: Tree| recording(&given) == Some(tree.nodes@);
                        assert(recording(&given) is Some && is_insertion_at_point(
                            tpl.source@,
                            s@,
                            recording(&given)->0,
                        ));
                        assert(is_point_insertion(tpl.source@, s@));
                    }
                    return Template { source: s };
                },
                _ => {
                    proof {
                        assert(false);
                    }
                },
            }
        }
        let s = to_chars(tpl.source.as_str());
        let lines = split_on_newline(&s);
        let idx = at_most(rng, lines.len());
        assert(buffers(lines@).len() == lines@.len());
        let r = Self::insert_line(tpl, idx, "let <var> = <integer>;");
        assert(r.source@ == with_line(tpl.source@, idx as int, plain_statement()));
        assert(is_line_insertion(tpl.source@, r.source@));
        r
    }

    /// Applies the operator with the given number: 0 inserts a statement, 1
    /// deletes a hole, any other number substitutes a token.
    pub fn apply(op: usize, tpl: &Template, rng: &mut StdRng) -> (r: Template)
        ensures
            op == 0 ==> is_insertion(tpl.source@, r.source@),
            op == 1 ==> r.source@ == delete_first_hole(tpl.source@),
            op > 1 ==> is_substitution(tpl.source@, r.source@),
            op != 1 && closed(tpl.source@) ==> closed(r.source@),
    {
        if op == 0 {
            Self::insert_placeholder(tpl, rng)
        } else if op == 1 {
            Self::delete_placeholder(tpl)
        } else {
            Self::substitute_placeholder(tpl, rng)
        }
    }

    /// Draws one of the three operators and applies it.
    pub fn mutate(tpl: &Template, rng: &mut StdRng) -> (r: Template)
        ensures
            is_mutation(tpl.source@, r.source@),
    {
        let op = below(rng, 3);
        Self::apply(op, tpl, rng)
    }

    /// The two templates with one line feed between them.
    pub fn fuse(a: &Template, b: &Template) -> (r: Template)
        ensures
            r.source@ == fused(a.source@, b.source@),
            r.source@.len() == a.source@.len() + 1 + b.source@.len(),
            closed(a.source@) && closed(b.source@) ==> closed(r.source@),
    {
        proof {
            if closed(a.source@) && closed(b.source@) {
                lemma_fused_closed(a.source@, b.source@);
            }
        }
        let mut out = to_chars(a.source.as_str());
        out.push('\n');
        push_str(&mut out, b.source.as_str());
        Template::from_chars(&out)
    }

    /// Puts `line` in as line `idx` of the template, counting from 0; with
    /// `idx` equal to the number of lines it becomes the last line.
    pub fn insert_line(tpl: &Template, idx: usize, line: &str) -> (r: Template)
        requires
            idx <= split_lines(tpl.source@).len(),
        ensures
            r.source@ == with_line(tpl.source@, idx as int, line@),
            closed(tpl.source@) && closed(line@) ==> closed(r.source@),
    {
        proof {
            if closed(tpl.source@) && closed(line@) {
                lemma_with_line_closed(tpl.source@, idx as int, line@);
            }
        }
        let s = to_chars(tpl.source.as_str());
        let mut lines = split_on_newline(&s);
        let ghost before = buffers(lines@);
        let new_line = to_chars(line);
        lines.insert(idx, new_line);
        assert(buffers(lines@) =~= before.insert(idx as int, line@));
        let out = join_with_newline(&lines);
        Template::from_chars(&out)
    }
}

} // verus!
