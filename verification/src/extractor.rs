//! From a concrete program to a template.
use crate::ast::{
    chars_before, char_index, is_naming_kind, recording, some_tree_is_too_large, yields_tree,
    JsAst, NodeKind, SyntaxNode, SyntaxTree,
};
use crate::closure::{closed, lemma_extracted_closed};
use crate::dataflow::{
    all_positive, collect_defs_uses, definition_events, definitions_of, dfcomp,
    lemma_events_bounded, lemma_positive_counts, node_text, text_of, use_events, uses_of,
};
use crate::pattern::{compile, compiles, pattern_of, replace_matches, replaced};
use crate::random::below;
use crate::template::{integer_token, var_token, Template};
use crate::text::{splice, splice_chars, to_chars};
use rand::rngs::StdRng;
use regex::Regex;
use tree_sitter::Tree;
use vstd::prelude::*;

verus! {

/// Turns programs into templates. It holds the two expressions of the
/// text-based path, compiled once.
pub struct Extractor {
    re_int: Option<Regex>,
    re_var_decl: Option<Regex>,
}

/// One replacement: the bytes from `start_byte` up to `end_byte` give way to
/// `token`.
#[derive(Debug, Clone, Copy)]
pub struct Edit {
    pub start_byte: usize,
    pub end_byte: usize,
    pub token: &'static str,
}

/// The expression for a decimal integer literal.
pub open spec fn int_pattern() -> Seq<char> {
    "(?P<num>\\b\\d+\\b)"@
}

/// The expression for `let` and the name it declares.
pub open spec fn let_pattern() -> Seq<char> {
    "\\blet\\s+([a-zA-Z_]\\w*)"@
}

/// What takes the place of a `let` and its name.
pub open spec fn let_replacement() -> Seq<char> {
    "let <var>"@
}

/// The text-based template of `src`: first every integer literal becomes an
/// integer hole, then every `let` with its name becomes `let <var>`. A pass
/// whose expression does not compile leaves the text as it is.
pub open spec fn fallback_text(src: Seq<char>) -> Seq<char> {
    let numbered = if compiles(int_pattern()) {
        replaced(int_pattern(), src, integer_token())
    } else {
        src
    };
    if compiles(let_pattern()) {
        replaced(let_pattern(), numbered, let_replacement())
    } else {
        numbered
    }
}

/// Node `i` names a declaration: an identifier whose parent is a declarator,
/// a function declaration or a class declaration.
pub open spec fn is_candidate(nodes: Seq<SyntaxNode>, i: int) -> bool {
    nodes[i].kind == NodeKind::Identifier && match nodes[i].parent {
        Some(p) => p < nodes.len() && is_naming_kind(nodes[p as int].kind),
        None => false,
    }
}

/// Whether the decisions accept node `i`.
pub open spec fn accepted(accept: Seq<bool>, i: int) -> bool {
    0 <= i < accept.len() && accept[i]
}

/// The edits for the first `upto` nodes: every number becomes an integer
/// hole, every accepted candidate an identifier hole.
pub open spec fn planned_edits(nodes: Seq<SyntaxNode>, accept: Seq<bool>, upto: int) -> Seq<Edit>
    decreases upto,
{
    if upto <= 0 {
        Seq::<Edit>::empty()
    } else {
        let rest = planned_edits(nodes, accept, upto - 1);
        let node = nodes[upto - 1];
        if node.kind == NodeKind::Number {
            rest.push(
                (Edit { start_byte: node.start_byte, end_byte: node.end_byte, token: "<integer>" }),
            )
        } else if is_candidate(nodes, upto - 1) && accepted(accept, upto - 1) {
            rest.push(
                (Edit { start_byte: node.start_byte, end_byte: node.end_byte, token: "<var>" }),
            )
        } else {
            rest
        }
    }
}

/// `e` put into a list that is ordered by falling start, behind every edit
/// that starts at or after it.
pub open spec fn placed(sorted: Seq<Edit>, e: Edit) -> Seq<Edit>
    decreases sorted.len(),
{
    if sorted.len() == 0 {
        seq![e]
    } else if sorted.last().start_byte >= e.start_byte {
        sorted.push(e)
    } else {
        placed(sorted.drop_last(), e).push(sorted.last())
    }
}

/// The edits ordered by falling start; edits with the same start keep their
/// order.
pub open spec fn rightmost_first(edits: Seq<Edit>) -> Seq<Edit>
    decreases edits.len(),
{
    if edits.len() == 0 {
        Seq::<Edit>::empty()
    } else {
        placed(rightmost_first(edits.drop_last()), edits.last())
    }
}

/// `s` after one edit. The byte offsets are read against `s` itself; an end
/// that lies before the start is taken as the start.
pub open spec fn edited(s: Seq<char>, e: Edit) -> Seq<char> {
    let from = chars_before(s, e.start_byte as int);
    let to = chars_before(s, e.end_byte as int);
    splice(s, from, if from <= to { to } else { from }, e.token@)
}

/// `s` after the edits, made one after the other.
pub open spec fn edited_all(s: Seq<char>, edits: Seq<Edit>) -> Seq<char>
    decreases edits.len(),
{
    if edits.len() == 0 {
        s
    } else {
        edited(edited_all(s, edits.drop_last()), edits.last())
    }
}

/// The template text that the tree gives for `src` under the decisions
/// `accept`: the planned edits, made from the rightmost to the leftmost.
pub open spec fn extracted(src: Seq<char>, nodes: Seq<SyntaxNode>, accept: Seq<bool>) -> Seq<char> {
    edited_all(src, rightmost_first(planned_edits(nodes, accept, nodes.len() as int)))
}

/// The weight of a name: the number of its definitions and uses among the
/// nodes, and 1 for a name that has none.
pub open spec fn weight_of(nodes: Seq<SyntaxNode>, src: Seq<char>, name: Seq<char>) -> nat {
    let count = definitions_of(nodes, src, nodes.len() as int, name) + uses_of(
        nodes,
        src,
        nodes.len() as int,
        name,
    );
    if count == 0 {
        1
    } else {
        count
    }
}

/// The weight of all names together: the number of all definitions and uses
/// among the nodes, and 1 where there is none.
pub open spec fn total_weight(nodes: Seq<SyntaxNode>) -> nat {
    let all = definition_events(nodes, nodes.len() as int) + use_events(
        nodes,
        nodes.len() as int,
    );
    if all == 0 {
        1
    } else {
        all
    }
}

/// Node `i` names a declaration, and eight times the weight of its name
/// reaches the weight of all names: every draw accepts it.
pub open spec fn is_heavy(nodes: Seq<SyntaxNode>, src: Seq<char>, i: int) -> bool {
    is_candidate(nodes, i) && 8 * weight_of(nodes, src, node_text(src, nodes[i])) >= total_weight(
        nodes,
    )
}

/// The decisions are such as draws can give: there is one for each node,
/// and every heavy node is accepted.
pub open spec fn are_decisions(nodes: Seq<SyntaxNode>, src: Seq<char>, accept: Seq<bool>) -> bool {
    accept.len() == nodes.len() && forall|i: int|
        0 <= i < nodes.len() && is_heavy(nodes, src, i) ==> #[trigger] accept[i]
}

/// `template` is what the record of a tree from the parser gives for `src`
/// under decisions that draws can give.
pub open spec fn is_tree_template(src: Seq<char>, template: Seq<char>) -> bool {
    exists|tree: Tree, accept: Seq<bool>|
        recording(&tree) is Some && are_decisions(recording(&tree)->0, src, accept) && template
            == extracted(src, recording(&tree)->0, accept)
}

/// `template` is a template of `src`. Where the parser gives a tree for
/// `src`, it is what the record of a tree gives; where it gives none, or one
/// too large to record, it is the text-based template.
pub open spec fn is_template_of(src: Seq<char>, template: Seq<char>) -> bool {
    if yields_tree(src) {
        is_tree_template(src, template) || (some_tree_is_too_large() && template
            == fallback_text(src))
    } else {
        template == fallback_text(src)
    }
}

/// Putting an edit in its place is an insertion at the index behind which
/// every edit starts before it.
pub proof fn lemma_placed_is_insert(sorted: Seq<Edit>, e: Edit, p: int)
    requires
        0 <= p <= sorted.len(),
        forall|k: int| p <= k < sorted.len() ==> sorted[k].start_byte < e.start_byte,
        p > 0 ==> sorted[p - 1].start_byte >= e.start_byte,
    ensures
        placed(sorted, e) == sorted.insert(p, e),
    decreases sorted.len(),
{
    if sorted.len() == 0 {
        assert(sorted.insert(p, e) =~= seq![e]);
    } else if sorted.last().start_byte >= e.start_byte {
        assert(p == sorted.len());
        assert(sorted.insert(p, e) =~= sorted.push(e));
    } else {
        assert(p < sorted.len());
        lemma_placed_is_insert(sorted.drop_last(), e, p);
        assert(sorted.insert(p, e) =~= sorted.drop_last().insert(p, e).push(sorted.last()));
    }
}

/// Whether a draw accepts a name: the draw, a number below the sum of all
/// weights, is below eight times the name's weight. For a uniform draw this
/// accepts a name of weight `w` among weights summing to `t` with
/// probability `w / (t / 8)`, or always where that exceeds 1.
pub fn accepts(weight: usize, draw: usize) -> (b: bool)
    ensures
        b == (draw < 8 * weight),
{
    draw / 8 < weight
}

/// Orders the edits by falling start; edits with the same start keep their
/// order.
pub fn sort_rightmost_first(edits: &Vec<Edit>) -> (r: Vec<Edit>)
    ensures
        r@ == rightmost_first(edits@),
{
    let mut sorted: Vec<Edit> = Vec::new();
    let mut i: usize = 0;
    assert(edits@.take(0) == Seq::<Edit>::empty());
    while i < edits.len()
        invariant
            i <= edits.len(),
            sorted@ == rightmost_first(edits@.take(i as int)),
        decreases edits.len() - i,
    {
        let e = edits[i];
        let ghost upto = edits@.take(i + 1);
        assert(upto.drop_last() == edits@.take(i as int));
        assert(upto.last() == e);
        let mut p: usize = sorted.len();
        while p > 0 && sorted[p - 1].start_byte < e.start_byte
            invariant
                p <= sorted.len(),
                forall|k: int| p <= k < sorted.len() ==> sorted@[k].start_byte < e.start_byte,
            decreases p,
        {
            p -= 1;
        }
        proof {
            lemma_placed_is_insert(sorted@, e, p as int);
        }
        sorted.insert(p, e);
        i += 1;
    }
    assert(edits@.take(edits.len() as int) == edits@);
    sorted
}

/// Makes one edit on the text.
pub fn apply_edit(s: &Vec<char>, e: &Edit) -> (r: Vec<char>)
    ensures
        r@ == edited(s@, *e),
{
    let from = char_index(s, e.start_byte);
    let to = char_index(s, e.end_byte);
    let token = to_chars(e.token);
    if from <= to {
        splice_chars(s, from, to, &token)
    } else {
        splice_chars(s, from, from, &token)
    }
}

impl Default for Extractor {
    /// The extractor with both expressions compiled.
    fn default() -> (r: Extractor)
        ensures
            r.wf(),
    {
        let re_int = match compile("(?P<num>\\b\\d+\\b)") {
            Ok(re) => Some(re),
            Err(_) => None,
        };
        let re_var_decl = match compile("\\blet\\s+([a-zA-Z_]\\w*)") {
            Ok(re) => Some(re),
            Err(_) => None,
        };
        Extractor { re_int, re_var_decl }
    }
}

impl Extractor {
    /// Each expression is held where it compiles, and is the expression of
    /// its pattern.
    pub closed spec fn wf(&self) -> bool {
        &&& self.re_int is Some <==> compiles(int_pattern())
        &&& self.re_int matches Some(re) ==> pattern_of(re) == int_pattern()
        &&& self.re_var_decl is Some <==> compiles(let_pattern())
        &&& self.re_var_decl matches Some(re) ==> pattern_of(re) == let_pattern()
    }

    /// The text-based template: integer literals become integer holes, then
    /// each `let` with its name becomes `let <var>`.
    pub fn fallback(&self, src: &str) -> (t: Template)
        requires
            self.wf(),
        ensures
            t.source@ == fallback_text(src@),
    {
        let numbered = match &self.re_int {
            Some(re) => replace_matches(re, src, "<integer>"),
            None => src.to_owned(),
        };
        let named = match &self.re_var_decl {
            Some(re) => replace_matches(re, numbered.as_str(), "let <var>"),
            None => numbered,
        };
        Template { source: named }
    }

    /// The edits that the tree calls for under the decisions `accept`, one
    /// decision for each node: every number, and every accepted identifier
    /// that names a declaration.
    pub fn plan(tree: &SyntaxTree, accept: &Vec<bool>) -> (r: Vec<Edit>)
        ensures
            r@ == planned_edits(tree.nodes@, accept@, tree.nodes@.len() as int),
    {
        let mut edits: Vec<Edit> = Vec::new();
        let mut i: usize = 0;
        while i < tree.nodes.len()
            invariant
                i <= tree.nodes.len(),
                edits@ == planned_edits(tree.nodes@, accept@, i as int),
            decreases tree.nodes.len() - i,
        {
            let node = tree.nodes[i];
            if node.kind == NodeKind::Number {
                edits.push(
                    Edit {
                        start_byte: node.start_byte,
                        end_byte: node.end_byte,
                        token: "<integer>",
                    },
                );
            } else if Self::names_declaration(tree, i) && i < accept.len() && accept[i] {
                edits.push(
                    Edit { start_byte: node.start_byte, end_byte: node.end_byte, token: "<var>" },
                );
            }
            i += 1;
        }
        edits
    }

    /// Whether node `i` is an identifier that names a declaration.
    pub fn names_declaration(tree: &SyntaxTree, i: usize) -> (b: bool)
        requires
            i < tree.nodes.len(),
        ensures
            b == is_candidate(tree.nodes@, i as int),
    {
        let node = tree.nodes[i];
        node.kind == NodeKind::Identifier && match node.parent {
            Some(p) => p < tree.nodes.len() && tree.nodes[p].kind.is_naming(),
            None => false,
        }
    }

    /// The template of `src` for a given tree and given decisions.
    pub fn from_tree(src: &str, tree: &SyntaxTree, accept: &Vec<bool>) -> (t: Template)
        ensures
            t.source@ == extracted(src@, tree.nodes@, accept@),
            closed(src@) ==> closed(t.source@),
    {
        proof {
            if closed(src@) {
                lemma_extracted_closed(src@, tree.nodes@, accept@);
            }
        }
        let edits = Self::plan(tree, accept);
        let ordered = sort_rightmost_first(&edits);
        let mut s = to_chars(src);
        let mut i: usize = 0;
        assert(ordered@.take(0) == Seq::<Edit>::empty());
        while i < ordered.len()
            invariant
                i <= ordered.len(),
                s@ == edited_all(src@, ordered@.take(i as int)),
            decreases ordered.len() - i,
        {
            let ghost upto = ordered@.take(i + 1);
            assert(upto.drop_last() == ordered@.take(i as int));
            assert(upto.last() == ordered@[i as int]);
            s = apply_edit(&s, &ordered[i]);
            i += 1;
        }
        assert(ordered@.take(ordered.len() as int) == ordered@);
        Template::from_chars(&s)
    }

    /// The template of `src`.
    ///
    /// Where the text parses, every number becomes an integer hole, and each
    /// identifier that names a declaration becomes an identifier hole if a
    /// draw accepts it. The draw is a number below the weight of all names,
    /// and it accepts a name if it is below eight times the weight of the
    /// name: so a name is the likelier to be accepted the more often it is
    /// defined and used, and a heavy one always is. Where the parser gives
    /// no tree for the text, or one too large to record, the result is the
    /// text-based template.
    pub fn extract(&self, src: &str, rng: &mut StdRng) -> (t: Template)
        requires
            self.wf(),
        ensures
            is_template_of(src@, t.source@),
            closed(src@) ==> closed(t.source@) || t.source@ == fallback_text(src@),
    {
        let mut js = JsAst::default();
        match js.parse(src) {
            Some(tree) => {
                let report = collect_defs_uses(&tree, src);
                let weights = dfcomp(&report);
                proof {
                    lemma_events_bounded(tree.nodes@, tree.nodes@.len() as int);
                }
                let sum = weights.sum();
                let total: usize = if sum == 0 {
                    1
                } else {
                    sum
                };
                let s = to_chars(src);
                let ghost nodes = tree.nodes@;
                assert(total == total_weight(nodes));
                let mut accept: Vec<bool> = Vec::new();
                let mut i: usize = 0;
                while i < tree.nodes.len()
                    invariant
                        i <= tree.nodes.len(),
                        nodes == tree.nodes@,
                        s@ == src@,
                        weights.wf(),
                        all_positive(weights.entries@),
                        forall|name: Seq<char>|
                            weights.count(name) == definitions_of(
                                nodes,
                                src@,
                                nodes.len() as int,
                                name,
                            ) + uses_of(nodes, src@, nodes.len() as int, name),
                        total == total_weight(nodes),
                        accept@.len() == i,
                        forall|j: int| 0 <= j < i && is_heavy(nodes, src@, j) ==> accept@[j],
                    decreases tree.nodes.len() - i,
                {
                    let mut take = false;
                    if Self::names_declaration(&tree, i) {
                        let name = text_of(&s, &tree.nodes[i]);
                        proof {
                            lemma_positive_counts(weights.entries@, name@);
                        }
                        let weight = match weights.get(name.as_str()) {
                            Some(w) => w,
                            None => 1,
                        };
                        assert(weights.count(name@) == definitions_of(
                            nodes,
                            src@,
                            nodes.len() as int,
                            name@,
                        ) + uses_of(nodes, src@, nodes.len() as int, name@));
                        assert(weight == weight_of(nodes, src@, name@));
                        take = accepts(weight, below(rng, total));
                    }
                    let ghost before = accept@;
                    accept.push(take);
                    assert forall|j: int|
                        0 <= j < i + 1 && is_heavy(nodes, src@, j) implies accept@[j] by {
                        if j < i {
                            assert(accept@[j] == before[j]);
                        }
                    }
                    i += 1;
                }
                let t = Self::from_tree(src, &tree, &accept);
                proof {
                    let given = choose|given: Tree| recording(&given) == Some(nodes);
                    assert(recording(&given) is Some && are_decisions(
                        recording(&given)->0,
                        src@,
                        accept@,
                    ) && t.source@ == extracted(src@, recording(&given)->0, accept@));
                    assert(is_tree_template(src@, t.source@));
                }
                t
            },
            None => self.fallback(src),
        }
    }
}

} // verus!
