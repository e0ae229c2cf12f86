//! Counts of definitions and uses per identifier.
use crate::ast::{
    chars_before, char_index, is_naming_kind, recording, some_tree_is_too_large, yields_tree,
    JsAst, NodeKind, SyntaxNode, SyntaxTree, MAX_NODES,
};
use crate::error::FuzzError;
use crate::text::{from_chars, same_text, to_chars};
use tree_sitter::Tree;
use vstd::prelude::*;

verus! {

/// A count for each of some names. A name that has no entry counts 0.
///
/// The entries are a list with each name once, not a hash map: the contracts
/// speak of the count of every name, and vstd has no model of hashing for
/// keys that are strings.
#[derive(Debug)]
pub struct NameCounts {
    pub entries: Vec<(String, usize)>,
}

/// The counts that one pass over a tree gives.
#[derive(Debug)]
pub struct DfReport {
    pub def_count: NameCounts,
    pub use_count: NameCounts,
}

/// The analysis, with the parser it uses.
pub struct JsDf {
    ast: JsAst,
}

/// No name has two entries.
pub open spec fn keys_distinct(entries: Seq<(String, usize)>) -> bool {
    forall|i: int, j: int|
        0 <= i < j < entries.len() ==> (#[trigger] entries[i]).0@ != (#[trigger] entries[j]).0@
}

/// `name` has an entry.
pub open spec fn has_key(entries: Seq<(String, usize)>, name: Seq<char>) -> bool {
    exists|i: int| 0 <= i < entries.len() && (#[trigger] entries[i]).0@ == name
}

/// The count that the entries give to `name`.
pub open spec fn count_in(entries: Seq<(String, usize)>, name: Seq<char>) -> nat {
    if has_key(entries, name) {
        let i = choose|i: int| 0 <= i < entries.len() && (#[trigger] entries[i]).0@ == name;
        entries[i].1 as nat
    } else {
        0
    }
}

/// The sum of all counts.
pub open spec fn sum_counts(entries: Seq<(String, usize)>) -> nat
    decreases entries.len(),
{
    if entries.len() == 0 {
        0
    } else {
        sum_counts(entries.drop_last()) + entries.last().1 as nat
    }
}

/// The text of a node: the characters of `src` that its bytes spell.
pub open spec fn node_text(src: Seq<char>, node: SyntaxNode) -> Seq<char> {
    let from = chars_before(src, node.start_byte as int);
    let to = chars_before(src, node.end_byte as int);
    if from <= to {
        src.subrange(from, to)
    } else {
        Seq::<char>::empty()
    }
}

/// Node `i` is a definition: an identifier that its parent names as what it
/// defines.
pub open spec fn is_definition(nodes: Seq<SyntaxNode>, i: int) -> bool {
    nodes[i].kind == NodeKind::Identifier && nodes[i].defines
}

/// Node `i` is a use: an identifier whose parent is not a declarator, a
/// function declaration or a class declaration. The left side of an
/// assignment is a definition and a use at once.
pub open spec fn is_use(nodes: Seq<SyntaxNode>, i: int) -> bool {
    nodes[i].kind == NodeKind::Identifier && match nodes[i].parent {
        Some(p) => p < nodes.len() && !is_naming_kind(nodes[p as int].kind),
        None => false,
    }
}

/// How many of the first `upto` nodes are definitions of `name`.
pub open spec fn definitions_of(
    nodes: Seq<SyntaxNode>,
    src: Seq<char>,
    upto: int,
    name: Seq<char>,
) -> nat
    decreases upto,
{
    if upto <= 0 {
        0
    } else {
        let rest = definitions_of(nodes, src, upto - 1, name);
        if is_definition(nodes, upto - 1) && node_text(src, nodes[upto - 1]) == name {
            rest + 1
        } else {
            rest
        }
    }
}

/// How many of the first `upto` nodes are uses of `name`.
pub open spec fn uses_of(nodes: Seq<SyntaxNode>, src: Seq<char>, upto: int, name: Seq<char>) -> nat
    decreases upto,
{
    if upto <= 0 {
        0
    } else {
        let rest = uses_of(nodes, src, upto - 1, name);
        if is_use(nodes, upto - 1) && node_text(src, nodes[upto - 1]) == name {
            rest + 1
        } else {
            rest
        }
    }
}

/// How many of the first `upto` nodes are definitions.
pub open spec fn definition_events(nodes: Seq<SyntaxNode>, upto: int) -> nat
    decreases upto,
{
    if upto <= 0 {
        0
    } else if is_definition(nodes, upto - 1) {
        definition_events(nodes, upto - 1) + 1
    } else {
        definition_events(nodes, upto - 1)
    }
}

/// How many of the first `upto` nodes are uses.
pub open spec fn use_events(nodes: Seq<SyntaxNode>, upto: int) -> nat
    decreases upto,
{
    if upto <= 0 {
        0
    } else if is_use(nodes, upto - 1) {
        use_events(nodes, upto - 1) + 1
    } else {
        use_events(nodes, upto - 1)
    }
}

/// Every entry counts at least 1.
pub open spec fn all_positive(entries: Seq<(String, usize)>) -> bool {
    forall|i: int| 0 <= i < entries.len() ==> (#[trigger] entries[i]).1 >= 1
}

/// `report` holds the counts of the nodes for the source `src`: for each
/// name its definitions and its uses, with no entry for a name that has
/// none, and so all definitions and all uses as the sums.
pub open spec fn is_report_of(nodes: Seq<SyntaxNode>, src: Seq<char>, report: DfReport) -> bool {
    &&& forall|name: Seq<char>|
        report.def_count.count(name) == definitions_of(nodes, src, nodes.len() as int, name)
    &&& forall|name: Seq<char>|
        report.use_count.count(name) == uses_of(nodes, src, nodes.len() as int, name)
    &&& report.def_count.total() == definition_events(nodes, nodes.len() as int)
    &&& report.use_count.total() == use_events(nodes, nodes.len() as int)
    &&& all_positive(report.def_count.entries@)
    &&& all_positive(report.use_count.entries@)
}

/// Of `upto` nodes at most `upto` are definitions, and at most `upto` are
/// uses.
pub proof fn lemma_events_bounded(nodes: Seq<SyntaxNode>, upto: int)
    requires
        0 <= upto,
    ensures
        definition_events(nodes, upto) <= upto,
        use_events(nodes, upto) <= upto,
    decreases upto,
{
    if upto > 0 {
        lemma_events_bounded(nodes, upto - 1);
    }
}

/// No count exceeds the sum of all counts.
pub proof fn lemma_count_le_total(entries: Seq<(String, usize)>, name: Seq<char>)
    ensures
        count_in(entries, name) <= sum_counts(entries),
{
    assert forall|i: int| 0 <= i < entries.len() implies (#[trigger] entries[i]).1 <= sum_counts(
        entries,
    ) by {
        lemma_count_le_sum(entries, i);
    }
}

/// Among positive counts with distinct names, a name has an entry exactly
/// when its count is not 0.
pub proof fn lemma_positive_counts(entries: Seq<(String, usize)>, name: Seq<char>)
    requires
        keys_distinct(entries),
        all_positive(entries),
    ensures
        has_key(entries, name) <==> count_in(entries, name) > 0,
{
    if has_key(entries, name) {
        let i = choose|i: int| 0 <= i < entries.len() && (#[trigger] entries[i]).0@ == name;
        lemma_count_at(entries, i);
    }
}

/// With distinct keys, the entry that holds a name gives its count.
pub proof fn lemma_count_at(entries: Seq<(String, usize)>, i: int)
    requires
        keys_distinct(entries),
        0 <= i < entries.len(),
    ensures
        has_key(entries, entries[i].0@),
        count_in(entries, entries[i].0@) == entries[i].1,
{
    let name = entries[i].0@;
    assert(has_key(entries, name));
    let j = choose|j: int| 0 <= j < entries.len() && (#[trigger] entries[j]).0@ == name;
    if j < i {
        assert(entries[j].0@ != entries[i].0@);
    } else if i < j {
        assert(entries[i].0@ != entries[j].0@);
    }
}

/// No single count exceeds the sum.
pub proof fn lemma_count_le_sum(entries: Seq<(String, usize)>, i: int)
    requires
        0 <= i < entries.len(),
    ensures
        entries[i].1 <= sum_counts(entries),
    decreases entries.len(),
{
    if i < entries.len() - 1 {
        lemma_count_le_sum(entries.drop_last(), i);
    }
}

/// Raising one count by `by` raises the sum by `by`.
pub proof fn lemma_sum_update(entries: Seq<(String, usize)>, i: int, e: (String, usize), by: nat)
    requires
        0 <= i < entries.len(),
        e.1 == entries[i].1 + by,
    ensures
        sum_counts(entries.update(i, e)) == sum_counts(entries) + by,
    decreases entries.len(),
{
    let after = entries.update(i, e);
    if i < entries.len() - 1 {
        lemma_sum_update(entries.drop_last(), i, e, by);
        assert(after.drop_last() == entries.drop_last().update(i, e));
    } else {
        assert(after.drop_last() == entries.drop_last());
    }
}

impl NameCounts {
    /// No name has two entries.
    pub open spec fn wf(&self) -> bool {
        keys_distinct(self.entries@)
    }

    /// The count of `name`; 0 where it has no entry.
    pub open spec fn count(&self, name: Seq<char>) -> nat {
        count_in(self.entries@, name)
    }

    /// The sum of all counts.
    pub open spec fn total(&self) -> nat {
        sum_counts(self.entries@)
    }

    /// The counts in which every name counts 0.
    pub fn new() -> (r: NameCounts)
        ensures
            r.wf(),
            r.entries@.len() == 0,
            r.total() == 0,
            forall|name: Seq<char>| r.count(name) == 0,
    {
        NameCounts { entries: Vec::new() }
    }

    /// The index of the entry of `name`, if it has one.
    fn position(&self, name: &str) -> (r: Option<usize>)
        ensures
            match r {
                Some(i) => i < self.entries.len() && self.entries@[i as int].0@ == name@,
                None => !has_key(self.entries@, name@),
            },
    {
        let mut i: usize = 0;
        while i < self.entries.len()
            invariant
                i <= self.entries.len(),
                forall|j: int| 0 <= j < i ==> (#[trigger] self.entries@[j]).0@ != name@,
            decreases self.entries.len() - i,
        {
            if same_text(self.entries[i].0.as_str(), name) {
                return Some(i);
            }
            i += 1;
        }
        None
    }

    /// The count of `name`, if it has an entry.
    pub fn get(&self, name: &str) -> (r: Option<usize>)
        requires
            self.wf(),
        ensures
            r is Some <==> has_key(self.entries@, name@),
            r matches Some(c) ==> c == self.count(name@),
    {
        match self.position(name) {
            Some(i) => {
                proof {
                    lemma_count_at(self.entries@, i as int);
                }
                Some(self.entries[i].1)
            },
            None => None,
        }
    }

    /// The sum of all counts.
    pub fn sum(&self) -> (r: usize)
        requires
            self.total() <= usize::MAX,
        ensures
            r == self.total(),
    {
        let mut total: usize = 0;
        let mut i: usize = 0;
        assert(self.entries@.take(0) == Seq::<(String, usize)>::empty());
        while i < self.entries.len()
            invariant
                i <= self.entries.len(),
                total == sum_counts(self.entries@.take(i as int)),
                self.total() <= usize::MAX,
            decreases self.entries.len() - i,
        {
            proof {
                let upto = self.entries@.take(i + 1);
                assert(upto.drop_last() == self.entries@.take(i as int));
                assert(upto.last() == self.entries@[i as int]);
                lemma_sum_prefix(self.entries@, i + 1);
            }
            total = total + self.entries[i].1;
            i += 1;
        }
        assert(self.entries@.take(self.entries.len() as int) == self.entries@);
        total
    }

    /// A copy with the same entries.
    pub fn duplicate(&self) -> (r: NameCounts)
        ensures
            r.entries@.len() == self.entries@.len(),
            forall|i: int|
                0 <= i < self.entries@.len() ==> (#[trigger] r.entries@[i]).0@
                    == self.entries@[i].0@ && r.entries@[i].1 == self.entries@[i].1,
    {
        let mut entries: Vec<(String, usize)> = Vec::new();
        let mut i: usize = 0;
        while i < self.entries.len()
            invariant
                i <= self.entries.len(),
                entries@.len() == i,
                forall|j: int|
                    0 <= j < i ==> (#[trigger] entries@[j]).0@ == self.entries@[j].0@
                        && entries@[j].1 == self.entries@[j].1,
            decreases self.entries.len() - i,
        {
            entries.push((self.entries[i].0.clone(), self.entries[i].1));
            i += 1;
        }
        NameCounts { entries }
    }
}

/// The sum over a prefix is at most the sum over all.
pub proof fn lemma_sum_prefix(entries: Seq<(String, usize)>, n: int)
    requires
        0 <= n <= entries.len(),
    ensures
        sum_counts(entries.take(n)) <= sum_counts(entries),
    decreases entries.len(),
{
    if n < entries.len() {
        lemma_sum_prefix(entries.drop_last(), n);
        assert(entries.drop_last().take(n) == entries.take(n));
    } else {
        assert(entries.take(n) == entries);
    }
}

/// Two lists with the same names and counts, entry by entry, give the same
/// counts and the same sum.
pub proof fn lemma_same_entries(a: Seq<(String, usize)>, b: Seq<(String, usize)>)
    requires
        a.len() == b.len(),
        forall|i: int| 0 <= i < a.len() ==> (#[trigger] b[i]).0@ == a[i].0@ && b[i].1 == a[i].1,
    ensures
        keys_distinct(a) ==> keys_distinct(b),
        sum_counts(a) == sum_counts(b),
        keys_distinct(a) ==> forall|name: Seq<char>| count_in(a, name) == count_in(b, name),
    decreases a.len(),
{
    if a.len() > 0 {
        assert forall|i: int| 0 <= i < a.drop_last().len() implies (#[trigger] b.drop_last()[i]).0@
            == a.drop_last()[i].0@ && b.drop_last()[i].1 == a.drop_last()[i].1 by {
            assert(b[i].0@ == a[i].0@);
        }
        lemma_same_entries(a.drop_last(), b.drop_last());
    }
    if keys_distinct(a) {
        assert forall|i: int, j: int| 0 <= i < j < b.len() implies (#[trigger] b[i]).0@ != (
        #[trigger] b[j]).0@ by {
            assert(b[i].0@ == a[i].0@);
            assert(b[j].0@ == a[j].0@);
        }
        assert forall|name: Seq<char>| count_in(a, name) == count_in(b, name) by {
            if has_key(a, name) {
                let i = choose|i: int| 0 <= i < a.len() && (#[trigger] a[i]).0@ == name;
                assert(b[i].0@ == name);
                lemma_count_at(a, i);
                lemma_count_at(b, i);
            } else if has_key(b, name) {
                let i = choose|i: int| 0 <= i < b.len() && (#[trigger] b[i]).0@ == name;
                assert(a[i].0@ == name);
            }
        }
    }
}

/// Raises the count of `k` by `by`.
pub fn incr(map: &mut NameCounts, k: String, by: usize)
    requires
        old(map).wf(),
        old(map).count(k@) + by <= usize::MAX,
    ensures
        final(map).wf(),
        final(map).count(k@) == old(map).count(k@) + by,
        forall|name: Seq<char>| name != k@ ==> final(map).count(name) == old(map).count(name),
        final(map).total() == old(map).total() + by,
        all_positive(old(map).entries@) && by >= 1 ==> all_positive(final(map).entries@),
        forall|name: Seq<char>|
            has_key(final(map).entries@, name) <==> has_key(old(map).entries@, name) || name
                == k@,
{
    let ghost before = map.entries@;
    match map.position(k.as_str()) {
        Some(i) => {
            proof {
                lemma_count_at(before, i as int);
            }
            let raised: usize = map.entries[i].1 + by;
            map.entries.set(i, (k, raised));
            proof {
                let after = map.entries@;
                assert(after == before.update(i as int, (k, raised)));
                lemma_sum_update(before, i as int, (k, raised), by as nat);
                assert forall|a: int, b: int| 0 <= a < b < after.len() implies (
                #[trigger] after[a]).0@ != (#[trigger] after[b]).0@ by {
                    assert(after[a].0@ == before[a].0@);
                    assert(after[b].0@ == before[b].0@);
                }
                lemma_count_at(after, i as int);
                assert forall|name: Seq<char>| has_key(after, name) <==> has_key(before, name)
                    || name == k@ by {
                    assert(after[i as int].0@ == k@ && before[i as int].0@ == k@);
                    if has_key(before, name) {
                        let j = choose|j: int|
                            0 <= j < before.len() && (#[trigger] before[j]).0@ == name;
                        assert(after[j].0@ == name);
                    }
                    if has_key(after, name) {
                        let j = choose|j: int|
                            0 <= j < after.len() && (#[trigger] after[j]).0@ == name;
                        assert(before[j].0@ == name);
                    }
                }
                if all_positive(before) && by >= 1 {
                    assert forall|j: int| 0 <= j < after.len() implies (#[trigger] after[j]).1
                        >= 1 by {
                        if j != i {
                            assert(after[j] == before[j]);
                        }
                    }
                }
                assert forall|name: Seq<char>| name != k@ implies count_in(after, name)
                    == count_in(before, name) by {
                    if has_key(before, name) {
                        let j = choose|j: int|
                            0 <= j < before.len() && (#[trigger] before[j]).0@ == name;
                        assert(after[j].0@ == name);
                        lemma_count_at(before, j);
                        lemma_count_at(after, j);
                    } else if has_key(after, name) {
                        let j = choose|j: int|
                            0 <= j < after.len() && (#[trigger] after[j]).0@ == name;
                        assert(before[j].0@ == name);
                    }
                }
            }
        },
        None => {
            map.entries.push((k, by));
            proof {
                let after = map.entries@;
                let last = after.len() - 1;
                assert(after.drop_last() == before);
                assert forall|a: int, b: int| 0 <= a < b < after.len() implies (
                #[trigger] after[a]).0@ != (#[trigger] after[b]).0@ by {
                    if b == last {
                        assert(before[a].0@ != k@);
                    } else {
                        assert(after[a] == before[a]);
                        assert(after[b] == before[b]);
                    }
                }
                lemma_count_at(after, last);
                assert forall|name: Seq<char>| has_key(after, name) <==> has_key(before, name)
                    || name == k@ by {
                    assert(after[last].0@ == k@);
                    if has_key(before, name) {
                        let j = choose|j: int|
                            0 <= j < before.len() && (#[trigger] before[j]).0@ == name;
                        assert(after[j] == before[j]);
                    }
                    if has_key(after, name) && name != k@ {
                        let j = choose|j: int|
                            0 <= j < after.len() && (#[trigger] after[j]).0@ == name;
                        assert(before[j] == after[j]);
                    }
                }
                if all_positive(before) && by >= 1 {
                    assert forall|j: int| 0 <= j < after.len() implies (#[trigger] after[j]).1
                        >= 1 by {
                        if j != last {
                            assert(after[j] == before[j]);
                        }
                    }
                }
                assert forall|name: Seq<char>| name != k@ implies count_in(after, name)
                    == count_in(before, name) by {
                    if has_key(before, name) {
                        let j = choose|j: int|
                            0 <= j < before.len() && (#[trigger] before[j]).0@ == name;
                        assert(after[j] == before[j]);
                        lemma_count_at(before, j);
                        lemma_count_at(after, j);
                    } else if has_key(after, name) {
                        let j = choose|j: int|
                            0 <= j < after.len() && (#[trigger] after[j]).0@ == name;
                        assert(before[j].0@ == name);
                    }
                }
            }
        },
    }
}

impl DfReport {
    /// Both tables are well formed, and for each name its definitions and
    /// its uses together fit a `usize`.
    pub open spec fn wf(&self) -> bool {
        &&& self.def_count.wf()
        &&& self.use_count.wf()
        &&& forall|name: Seq<char>|
            self.def_count.count(name) + self.use_count.count(name) <= usize::MAX
    }
}

/// The characters of `src` that the node's bytes spell.
pub fn text_of(src: &Vec<char>, node: &SyntaxNode) -> (r: String)
    ensures
        r@ == node_text(src@, *node),
{
    let from = char_index(src, node.start_byte);
    let to = char_index(src, node.end_byte);
    let mut out: Vec<char> = Vec::new();
    if from <= to {
        let mut i: usize = from;
        while i < to
            invariant
                from <= i <= to <= src.len(),
                out@ == src@.subrange(from as int, i as int),
            decreases to - i,
        {
            out.push(src[i]);
            i += 1;
        }
    }
    from_chars(&out)
}

/// Counts the definitions and the uses of each identifier in the tree.
pub fn collect_defs_uses(tree: &SyntaxTree, src: &str) -> (r: DfReport)
    requires
        tree.wf(),
    ensures
        r.wf(),
        is_report_of(tree.nodes@, src@, r),
{
    let s = to_chars(src);
    let mut defs = NameCounts::new();
    let mut uses = NameCounts::new();
    let mut i: usize = 0;
    while i < tree.nodes.len()
        invariant
            i <= tree.nodes.len() <= MAX_NODES,
            s@ == src@,
            tree.wf(),
            defs.wf(),
            uses.wf(),
            all_positive(defs.entries@),
            all_positive(uses.entries@),
            defs.total() == definition_events(tree.nodes@, i as int),
            uses.total() == use_events(tree.nodes@, i as int),
            forall|name: Seq<char>|
                defs.count(name) == definitions_of(tree.nodes@, src@, i as int, name),
            forall|name: Seq<char>| uses.count(name) == uses_of(tree.nodes@, src@, i as int, name),
        decreases tree.nodes.len() - i,
    {
        let node = tree.nodes[i];
        proof {
            lemma_events_bounded(tree.nodes@, i as int);
        }
        if node.kind == NodeKind::Identifier {
            if node.defines {
                let name = text_of(&s, &node);
                proof {
                    lemma_count_le_total(defs.entries@, name@);
                }
                incr(&mut defs, name, 1);
            }
            let used = match node.parent {
                Some(p) => p < tree.nodes.len() && !tree.nodes[p].kind.is_naming(),
                None => false,
            };
            if used {
                let name = text_of(&s, &node);
                proof {
                    lemma_count_le_total(uses.entries@, name@);
                }
                incr(&mut uses, name, 1);
            }
        }
        i += 1;
    }
    proof {
        lemma_events_bounded(tree.nodes@, tree.nodes@.len() as int);
        assert forall|name: Seq<char>| defs.count(name) + uses.count(name) <= usize::MAX by {
            lemma_count_le_total(defs.entries@, name);
            lemma_count_le_total(uses.entries@, name);
        }
    }
    DfReport { def_count: defs, use_count: uses }
}

/// For each identifier, its definitions and its uses together.
pub fn dfcomp(report: &DfReport) -> (r: NameCounts)
    requires
        report.wf(),
    ensures
        r.wf(),
        forall|name: Seq<char>|
            r.count(name) == report.def_count.count(name) + report.use_count.count(name),
        r.total() == report.def_count.total() + report.use_count.total(),
        all_positive(report.def_count.entries@) && all_positive(report.use_count.entries@)
            ==> all_positive(r.entries@),
        forall|name: Seq<char>|
            has_key(r.entries@, name) <==> has_key(report.def_count.entries@, name) || has_key(
                report.use_count.entries@,
                name,
            ),
{
    let mut out = report.def_count.duplicate();
    proof {
        lemma_same_entries(report.def_count.entries@, out.entries@);
        lemma_same_keys(report.def_count.entries@, out.entries@);
        if all_positive(report.def_count.entries@) {
            assert forall|i: int| 0 <= i < out.entries@.len() implies (
            #[trigger] out.entries@[i]).1 >= 1 by {
                assert(report.def_count.entries@[i].1 >= 1);
            }
        }
    }
    let uses = &report.use_count.entries;
    let mut j: usize = 0;
    assert(uses@.take(0) == Seq::<(String, usize)>::empty());
    while j < uses.len()
        invariant
            j <= uses.len(),
            uses == &report.use_count.entries,
            report.wf(),
            out.wf(),
            out.total() == report.def_count.total() + sum_counts(uses@.take(j as int)),
            all_positive(report.def_count.entries@) && all_positive(uses@) ==> all_positive(
                out.entries@,
            ),
            forall|name: Seq<char>|
                has_key(out.entries@, name) <==> has_key(report.def_count.entries@, name)
                    || has_key(uses@.take(j as int), name),
            forall|name: Seq<char>|
                out.count(name) == report.def_count.count(name) + count_in(
                    uses@.take(j as int),
                    name,
                ),
        decreases uses.len() - j,
    {
        proof {
            let upto = uses@.take(j + 1);
            let sofar = uses@.take(j as int);
            assert(upto.drop_last() == sofar);
            assert(upto.last() == uses@[j as int]);
            lemma_prefix_distinct(uses@, j + 1);
            lemma_count_at(upto, j as int);
            lemma_count_at(uses@, j as int);
            assert(!has_key(sofar, uses@[j as int].0@)) by {
                if has_key(sofar, uses@[j as int].0@) {
                    let a = choose|a: int|
                        0 <= a < sofar.len() && (#[trigger] sofar[a]).0@ == uses@[j as int].0@;
                    assert(sofar[a] == uses@[a]);
                    assert(uses@[a].0@ != uses@[j as int].0@);
                }
            }
            assert forall|name: Seq<char>| name != uses@[j as int].0@ implies count_in(upto, name)
                == count_in(sofar, name) by {
                lemma_prefix_distinct(uses@, j as int);
                if has_key(sofar, name) {
                    let a = choose|a: int| 0 <= a < sofar.len() && (#[trigger] sofar[a]).0@ == name;
                    assert(upto[a] == sofar[a]);
                    lemma_count_at(sofar, a);
                    lemma_count_at(upto, a);
                } else if has_key(upto, name) {
                    let a = choose|a: int| 0 <= a < upto.len() && (#[trigger] upto[a]).0@ == name;
                    assert(sofar[a] == upto[a]);
                }
            }
            let key = uses@[j as int].0@;
            assert forall|name: Seq<char>| has_key(upto, name) <==> has_key(sofar, name) || name
                == key by {
                if has_key(sofar, name) {
                    let a = choose|a: int| 0 <= a < sofar.len() && (#[trigger] sofar[a]).0@ == name;
                    assert(upto[a] == sofar[a]);
                }
                if has_key(upto, name) && name != key {
                    let a = choose|a: int| 0 <= a < upto.len() && (#[trigger] upto[a]).0@ == name;
                    assert(sofar[a] == upto[a]);
                }
            }
            assert(count_in(sofar, key) == 0);
            assert(out.count(key) + uses@[j as int].1 == report.def_count.count(key)
                + report.use_count.count(key));
            assert(uses@[j as int].1 >= 1 || !all_positive(uses@));
        }
        incr(&mut out, uses[j].0.clone(), uses[j].1);
        j += 1;
    }
    assert(uses@.take(uses.len() as int) == uses@);
    out
}

/// Two lists with the same names, entry by entry, have entries for the same
/// names.
pub proof fn lemma_same_keys(a: Seq<(String, usize)>, b: Seq<(String, usize)>)
    requires
        a.len() == b.len(),
        forall|i: int| 0 <= i < a.len() ==> (#[trigger] b[i]).0@ == a[i].0@,
    ensures
        forall|name: Seq<char>| has_key(a, name) <==> has_key(b, name),
{
    assert forall|name: Seq<char>| has_key(a, name) <==> has_key(b, name) by {
        if has_key(a, name) {
            let i = choose|i: int| 0 <= i < a.len() && (#[trigger] a[i]).0@ == name;
            assert(b[i].0@ == name);
        }
        if has_key(b, name) {
            let i = choose|i: int| 0 <= i < b.len() && (#[trigger] b[i]).0@ == name;
            assert(a[i].0@ == name);
        }
    }
}

/// A prefix of a list with distinct keys has distinct keys.
pub proof fn lemma_prefix_distinct(entries: Seq<(String, usize)>, n: int)
    requires
        keys_distinct(entries),
        0 <= n <= entries.len(),
    ensures
        keys_distinct(entries.take(n)),
{
    assert forall|i: int, j: int| 0 <= i < j < entries.take(n).len() implies (
    #[trigger] entries.take(n)[i]).0@ != (#[trigger] entries.take(n)[j]).0@ by {
        assert(entries.take(n)[i] == entries[i]);
        assert(entries.take(n)[j] == entries[j]);
    }
}

impl Default for JsDf {
    /// The analysis with a fresh JavaScript parser.
    fn default() -> JsDf {
        JsDf { ast: JsAst::default() }
    }
}

impl JsDf {
    /// Parses `src` and counts definitions and uses in the record of the
    /// tree. Fails with `FuzzError::Other` where the parser gives no tree for
    /// the text, or one too large to record.
    pub fn analyze(&mut self, src: &str) -> (r: Result<DfReport, FuzzError>)
        ensures
            r is Ok ==> yields_tree(src@),
            r is Err ==> !yields_tree(src@) || some_tree_is_too_large(),
            r matches Ok(report) ==> report.wf() && exists|tree: Tree|
                recording(&tree) is Some && is_report_of(recording(&tree)->0, src@, report),
            r matches Err(e) ==> e is Other,
    {
        match self.ast.parse(src) {
            Some(tree) => {
                let report = collect_defs_uses(&tree, src);
                proof {
                    let given = choose|given: Tree| recording(&given) == Some(tree.nodes@);
                    assert(recording(&given) is Some && is_report_of(
                        recording(&given)->0,
                        src@,
                        report,
                    ));
                }
                Ok(report)
            },
            None => Err(FuzzError::Other("parse failed".to_owned())),
        }
    }
}

} // verus!
