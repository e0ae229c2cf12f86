//! The syntax tree of a JavaScript source, as far as the fuzzer reads it.
//!
//! The parser is an outside one. Its tree is walked once and recorded as a
//! list of plain nodes, in the order of the walk; everything else works on
//! that list.
use crate::text::{from_chars, push_chars, same_text, to_chars};
use tree_sitter::{Node, Parser, Tree};
use vstd::prelude::*;

verus! {

#[verifier::external_type_specification]
#[verifier::external_body]
pub struct ExParser(Parser);

#[verifier::external_type_specification]
#[verifier::external_body]
pub struct ExTree(Tree);

#[verifier::external_type_specification]
#[verifier::external_body]
pub struct ExNode<'a>(Node<'a>);

/// The node kinds that the fuzzer tells apart; every other kind is `Other`.
#[derive(Debug, Clone, Copy, PartialEq, Eq, Structural)]
pub enum NodeKind {
    Number,
    Identifier,
    VariableDeclarator,
    FunctionDeclaration,
    ClassDeclaration,
    AssignmentExpression,
    StatementBlock,
    VariableDeclaration,
    LexicalDeclaration,
    ExpressionStatement,
    IfStatement,
    ForStatement,
    ForInStatement,
    ForOfStatement,
    WhileStatement,
    DoStatement,
    ReturnStatement,
    ThrowStatement,
    TryStatement,
    Other,
}

/// One node of the tree.
#[derive(Debug, Clone, Copy)]
pub struct SyntaxNode {
    pub kind: NodeKind,
    /// Offset of the node's first byte in the UTF-8 source.
    pub start_byte: usize,
    /// Offset just past the node's last byte.
    pub end_byte: usize,
    /// Index of the parent in the tree's list; `None` for the root.
    pub parent: Option<usize>,
    /// Whether the parent names this node as what it defines: the `name` of
    /// a declarator, function or class, or the `left` side of an assignment.
    pub defines: bool,
}

/// A syntax tree as the list of its nodes in walk order: the root first, and
/// below each node its children from the last to the first.
#[derive(Debug)]
pub struct SyntaxTree {
    pub nodes: Vec<SyntaxNode>,
}

/// The largest number of nodes that a tree records.
pub const MAX_NODES: usize = usize::MAX / 2;

/// A parser for JavaScript.
pub struct JsAst {
    parser: Parser,
}

/// The kind that the grammar calls `name`.
pub open spec fn kind_named(name: Seq<char>) -> NodeKind {
    if name == "number"@ {
        NodeKind::Number
    } else if name == "identifier"@ {
        NodeKind::Identifier
    } else if name == "variable_declarator"@ {
        NodeKind::VariableDeclarator
    } else if name == "function_declaration"@ {
        NodeKind::FunctionDeclaration
    } else if name == "class_declaration"@ {
        NodeKind::ClassDeclaration
    } else if name == "assignment_expression"@ {
        NodeKind::AssignmentExpression
    } else if name == "statement_block"@ {
        NodeKind::StatementBlock
    } else if name == "variable_declaration"@ {
        NodeKind::VariableDeclaration
    } else if name == "lexical_declaration"@ {
        NodeKind::LexicalDeclaration
    } else if name == "expression_statement"@ {
        NodeKind::ExpressionStatement
    } else if name == "if_statement"@ {
        NodeKind::IfStatement
    } else if name == "for_statement"@ {
        NodeKind::ForStatement
    } else if name == "for_in_statement"@ {
        NodeKind::ForInStatement
    } else if name == "for_of_statement"@ {
        NodeKind::ForOfStatement
    } else if name == "while_statement"@ {
        NodeKind::WhileStatement
    } else if name == "do_statement"@ {
        NodeKind::DoStatement
    } else if name == "return_statement"@ {
        NodeKind::ReturnStatement
    } else if name == "throw_statement"@ {
        NodeKind::ThrowStatement
    } else if name == "try_statement"@ {
        NodeKind::TryStatement
    } else {
        NodeKind::Other
    }
}

/// The kinds before which a statement may be put in: blocks, declarations,
/// expression statements and the control statements.
pub open spec fn is_statement_kind(k: NodeKind) -> bool {
    !(k == NodeKind::Number || k == NodeKind::Identifier || k == NodeKind::VariableDeclarator || k
        == NodeKind::AssignmentExpression || k == NodeKind::Other)
}

/// The kinds whose `name` child is a definition.
pub open spec fn is_naming_kind(k: NodeKind) -> bool {
    k == NodeKind::VariableDeclarator || k == NodeKind::FunctionDeclaration || k
        == NodeKind::ClassDeclaration
}

/// The nodes of statement kind among `nodes`, in order.
pub open spec fn statements_among(nodes: Seq<SyntaxNode>) -> Seq<SyntaxNode>
    decreases nodes.len(),
{
    if nodes.len() == 0 {
        Seq::<SyntaxNode>::empty()
    } else if is_statement_kind(nodes.last().kind) {
        statements_among(nodes.drop_last()).push(nodes.last())
    } else {
        statements_among(nodes.drop_last())
    }
}

/// The places at which a statement may be put in: the nodes of statement
/// kind, or the root alone where there is none.
pub open spec fn insertion_points(nodes: Seq<SyntaxNode>) -> Seq<SyntaxNode> {
    if statements_among(nodes).len() == 0 {
        seq![nodes[0]]
    } else {
        statements_among(nodes)
    }
}

/// What makes a list of nodes a tree: it has a root, it is not too long, and
/// every parent stands before its children.
pub open spec fn well_formed(nodes: Seq<SyntaxNode>) -> bool {
    &&& 1 <= nodes.len() <= MAX_NODES
    &&& nodes[0].parent is None
    &&& forall|i: int|
        0 <= i < nodes.len() ==> match (#[trigger] nodes[i]).parent {
            Some(p) => p < i,
            None => true,
        }
}

/// The number of bytes that encode `c` in UTF-8.
pub open spec fn utf8_width(c: char) -> int {
    if (c as u32) < 0x80 {
        1
    } else if (c as u32) < 0x800 {
        2
    } else if (c as u32) < 0x10000 {
        3
    } else {
        4
    }
}

/// The number of whole characters of `s` that the first `bytes` bytes of its
/// UTF-8 encoding hold. For an offset on a character boundary this is the
/// index of the character that starts there; an offset past the end gives
/// the length of `s`.
pub open spec fn chars_before(s: Seq<char>, bytes: int) -> int
    decreases s.len(),
{
    if s.len() == 0 || bytes < utf8_width(s[0]) {
        0
    } else {
        1 + chars_before(s.skip(1), bytes - utf8_width(s[0]))
    }
}

/// `text` put into `s` before character `k`, on a line of its own: a line
/// feed goes before it unless what precedes ends in one, and a line feed
/// after it unless it ends in one itself.
pub open spec fn inserted_at(s: Seq<char>, k: int, text: Seq<char>) -> Seq<char> {
    let head = s.take(k);
    let lead = if head.len() > 0 && head.last() == '\n' {
        Seq::<char>::empty()
    } else {
        seq!['\n']
    };
    let trail = if text.len() > 0 && text.last() == '\n' {
        Seq::<char>::empty()
    } else {
        seq!['\n']
    };
    head + lead + text + trail + s.skip(k)
}

/// `chars_before` counts at most the characters of `s`.
pub proof fn lemma_chars_before_bounds(s: Seq<char>, bytes: int)
    ensures
        0 <= chars_before(s, bytes) <= s.len(),
    decreases s.len(),
{
    if !(s.len() == 0 || bytes < utf8_width(s[0])) {
        lemma_chars_before_bounds(s.skip(1), bytes - utf8_width(s[0]));
    }
}

/// `Parser::new`: a parser with no language assigned.
#[verifier::external_body]
fn new_parser() -> Parser {
    Parser::new()
}

/// `Parser::set_language` with the grammar that
/// `tree_sitter_javascript::language` gives. Tells whether the parser took
/// it; it refuses a grammar of another version.
#[verifier::external_body]
fn assign_javascript(parser: &mut Parser) -> bool {
    parser.set_language(tree_sitter_javascript::language()).is_ok()
}

/// Whether `Parser::parse` gives a tree for the text, on a parser that was
/// offered the JavaScript grammar and was set up in no other way.
pub uninterp spec fn yields_tree(text: Seq<char>) -> bool;

/// `Parser::parse` on the text, with no earlier tree, on the parser of a
/// `JsAst`. Such a parser comes of `Parser::new` and `Parser::set_language`
/// alone: it has no timeout and no cancellation flag, and of the three
/// causes that the parser's documentation gives for no tree only the
/// missing grammar is left. So whether a tree comes is fixed by the text.
#[verifier::external_body]
fn parse_text(ast: &mut JsAst, src: &str) -> (tree: Option<Tree>)
    ensures
        tree is Some <==> yields_tree(src@),
{
    ast.parser.parse(src, None)
}

/// Some tree from the parser has more than `MAX_NODES` nodes, so that no
/// list records it.
pub open spec fn some_tree_is_too_large() -> bool {
    exists|tree: Tree| recording(&tree) is None
}

/// The root of a tree, as `Tree::root_node` gives it.
pub uninterp spec fn tree_root(tree: &Tree) -> Node<'_>;

/// The grammar's name for the kind of a node, as `Node::kind` gives it.
pub uninterp spec fn node_kind(node: Node<'_>) -> Seq<char>;

/// The offset of a node's first byte, as `Node::start_byte` gives it.
pub uninterp spec fn node_start(node: Node<'_>) -> usize;

/// The offset just past a node's last byte, as `Node::end_byte` gives it.
pub uninterp spec fn node_end(node: Node<'_>) -> usize;

/// The number of children of a node, as `Node::child_count` gives it.
pub uninterp spec fn node_child_count(node: Node<'_>) -> usize;

/// The child of a node at index `i`, as `Node::child` gives it.
pub uninterp spec fn node_child(node: Node<'_>, i: usize) -> Option<Node<'_>>;

/// The first child of a node in the field `field`, as
/// `Node::child_by_field_name` gives it.
pub uninterp spec fn node_field(node: Node<'_>, field: Seq<char>) -> Option<Node<'_>>;

/// Whether two nodes are the same node of their tree, as `==` on nodes
/// tells it.
pub uninterp spec fn nodes_same(a: Node<'_>, b: Node<'_>) -> bool;

/// `Tree::root_node`.
#[verifier::external_body]
fn root_of<'a>(tree: &'a Tree) -> (node: Node<'a>)
    ensures
        node == tree_root(tree),
{
    tree.root_node()
}

/// `Node::kind`: the grammar's name for the node's kind.
#[verifier::external_body]
fn kind_name(node: &Node<'_>) -> (name: &'static str)
    ensures
        name@ == node_kind(*node),
{
    node.kind()
}

/// `Node::start_byte`.
#[verifier::external_body]
fn start_of(node: &Node<'_>) -> (offset: usize)
    ensures
        offset == node_start(*node),
{
    node.start_byte()
}

/// `Node::end_byte`.
#[verifier::external_body]
fn end_of(node: &Node<'_>) -> (offset: usize)
    ensures
        offset == node_end(*node),
{
    node.end_byte()
}

/// `Node::child_count`.
#[verifier::external_body]
fn child_count_of(node: &Node<'_>) -> (count: usize)
    ensures
        count == node_child_count(*node),
{
    node.child_count()
}

/// `Node::child`: the child at index `i`, if there is one.
#[verifier::external_body]
fn child_of<'a>(node: &Node<'a>, i: usize) -> (child: Option<Node<'a>>)
    ensures
        child == node_child(*node, i),
{
    node.child(i)
}

/// `Node::child_by_field_name`: the first child in the named field.
#[verifier::external_body]
fn field_child<'a>(node: &Node<'a>, field: &str) -> (child: Option<Node<'a>>)
    ensures
        child == node_field(*node, field@),
{
    node.child_by_field_name(field)
}

/// `==` on nodes, which compares their identities within the tree.
#[verifier::external_body]
fn same_node(a: &Node<'_>, b: &Node<'_>) -> (same: bool)
    ensures
        same == nodes_same(*a, *b),
{
    a == b
}

/// The node as it is recorded, under the parent and the mark that it was
/// found with.
pub open spec fn recorded_node(node: Node<'_>, parent: Option<usize>, defines: bool) -> SyntaxNode {
    SyntaxNode {
        kind: kind_named(node_kind(node)),
        start_byte: node_start(node),
        end_byte: node_end(node),
        parent,
        defines,
    }
}

/// The child that a node defines: the `name` of a declarator, a function
/// declaration or a class declaration, the `left` side of an assignment;
/// none for a node of any other kind.
pub open spec fn defined_child<'a>(node: Node<'a>) -> Option<Node<'a>> {
    let kind = kind_named(node_kind(node));
    if is_naming_kind(kind) {
        node_field(node, "name"@)
    } else if kind == NodeKind::AssignmentExpression {
        node_field(node, "left"@)
    } else {
        None
    }
}

/// Whether `child` is what `node` defines.
pub open spec fn defines_child<'a>(node: Node<'a>, child: Node<'a>) -> bool {
    match defined_child(node) {
        Some(target) => nodes_same(child, target),
        None => false,
    }
}

/// `stack` with the children of `node` from index `from` on put on top, the
/// first of them lowest. Each goes with `index`, the place of `node` in the
/// list, as its parent.
pub open spec fn with_children<'a>(
    stack: Seq<(Node<'a>, Option<usize>, bool)>,
    node: Node<'a>,
    index: usize,
    from: int,
) -> Seq<(Node<'a>, Option<usize>, bool)>
    decreases node_child_count(node) - from,
{
    if from < 0 || from >= node_child_count(node) {
        stack
    } else {
        let higher = match node_child(node, from as usize) {
            Some(child) => stack.push((child, Some(index), defines_child(node, child))),
            None => stack,
        };
        with_children(higher, node, index, from + 1)
    }
}

/// The list that the walk makes of what is still on the stack, behind the
/// nodes recorded so far. The node on top is recorded next, and its children
/// take its place: so the last child is recorded before the first. `None`
/// where the walk meets more than `MAX_NODES` nodes.
pub open spec fn walk<'a>(
    stack: Seq<(Node<'a>, Option<usize>, bool)>,
    nodes: Seq<SyntaxNode>,
) -> Option<Seq<SyntaxNode>>
    decreases MAX_NODES - nodes.len(),
{
    if stack.len() == 0 {
        Some(nodes)
    } else if nodes.len() >= MAX_NODES {
        None
    } else {
        let (node, parent, defines) = stack.last();
        walk(
            with_children(stack.drop_last(), node, nodes.len() as usize, 0),
            nodes.push(recorded_node(node, parent, defines)),
        )
    }
}

/// The list of nodes that records a tree: the walk from its root.
pub open spec fn recording(tree: &Tree) -> Option<Seq<SyntaxNode>> {
    walk(seq![(tree_root(tree), None::<usize>, false)], Seq::<SyntaxNode>::empty())
}

impl NodeKind {
    /// The kind that the grammar calls `name`.
    pub fn from_name(name: &str) -> (k: NodeKind)
        ensures
            k == kind_named(name@),
    {
        if same_text(name, "number") {
            NodeKind::Number
        } else if same_text(name, "identifier") {
            NodeKind::Identifier
        } else if same_text(name, "variable_declarator") {
            NodeKind::VariableDeclarator
        } else if same_text(name, "function_declaration") {
            NodeKind::FunctionDeclaration
        } else if same_text(name, "class_declaration") {
            NodeKind::ClassDeclaration
        } else if same_text(name, "assignment_expression") {
            NodeKind::AssignmentExpression
        } else if same_text(name, "statement_block") {
            NodeKind::StatementBlock
        } else if same_text(name, "variable_declaration") {
            NodeKind::VariableDeclaration
        } else if same_text(name, "lexical_declaration") {
            NodeKind::LexicalDeclaration
        } else if same_text(name, "expression_statement") {
            NodeKind::ExpressionStatement
        } else if same_text(name, "if_statement") {
            NodeKind::IfStatement
        } else if same_text(name, "for_statement") {
            NodeKind::ForStatement
        } else if same_text(name, "for_in_statement") {
            NodeKind::ForInStatement
        } else if same_text(name, "for_of_statement") {
            NodeKind::ForOfStatement
        } else if same_text(name, "while_statement") {
            NodeKind::WhileStatement
        } else if same_text(name, "do_statement") {
            NodeKind::DoStatement
        } else if same_text(name, "return_statement") {
            NodeKind::ReturnStatement
        } else if same_text(name, "throw_statement") {
            NodeKind::ThrowStatement
        } else if same_text(name, "try_statement") {
            NodeKind::TryStatement
        } else {
            NodeKind::Other
        }
    }

    /// Whether a statement may be put in before a node of this kind.
    pub fn is_statement(self) -> (b: bool)
        ensures
            b == is_statement_kind(self),
    {
        !(self == NodeKind::Number || self == NodeKind::Identifier || self
            == NodeKind::VariableDeclarator || self == NodeKind::AssignmentExpression || self
            == NodeKind::Other)
    }

    /// Whether the `name` child of a node of this kind is a definition.
    pub fn is_naming(self) -> (b: bool)
        ensures
            b == is_naming_kind(self),
    {
        self == NodeKind::VariableDeclarator || self == NodeKind::FunctionDeclaration || self
            == NodeKind::ClassDeclaration
    }
}

impl SyntaxTree {
    /// Whether the list of nodes is a tree.
    pub open spec fn wf(&self) -> bool {
        well_formed(self.nodes@)
    }

    /// The tree that holds `nodes`, where they form one.
    pub fn from_nodes(nodes: Vec<SyntaxNode>) -> (r: Option<SyntaxTree>)
        ensures
            r is Some <==> well_formed(nodes@),
            r matches Some(t) ==> t.nodes@ == nodes@ && t.wf(),
    {
        if nodes.len() < 1 || nodes.len() > MAX_NODES {
            return None;
        }
        if nodes[0].parent.is_some() {
            return None;
        }
        let mut i: usize = 0;
        while i < nodes.len()
            invariant
                i <= nodes.len(),
                forall|j: int|
                    0 <= j < i ==> match (#[trigger] nodes@[j]).parent {
                        Some(p) => p < j,
                        None => true,
                    },
            decreases nodes.len() - i,
        {
            match nodes[i].parent {
                Some(p) => {
                    if p >= i {
                        return None;
                    }
                },
                None => {},
            }
            i += 1;
        }
        Some(SyntaxTree { nodes })
    }
}

/// Records a tree that the parser gave: walks it from its root and lists
/// each node met, in the order of `recording`. `None` where the walk meets
/// more than `MAX_NODES` nodes.
pub fn record(tree: &Tree) -> (r: Option<SyntaxTree>)
    ensures
        match r {
            Some(t) => recording(tree) == Some(t.nodes@) && t.wf(),
            None => recording(tree) is None,
        },
{
    let mut nodes: Vec<SyntaxNode> = Vec::new();
    let mut stack: Vec<(Node<'_>, Option<usize>, bool)> = Vec::new();
    stack.push((root_of(tree), None, false));
    assert(stack@ =~= seq![(tree_root(tree), None::<usize>, false)]);
    loop
        invariant
            nodes.len() <= MAX_NODES,
            recording(tree) == walk(stack@, nodes@),
            nodes.len() == 0 ==> stack.len() == 1 && stack@[0].1 is None,
            nodes.len() > 0 ==> nodes@[0].parent is None,
            forall|i: int|
                0 <= i < nodes.len() ==> match (#[trigger] nodes@[i]).parent {
                    Some(p) => p < i,
                    None => true,
                },
            forall|k: int|
                0 <= k < stack.len() ==> match (#[trigger] stack@[k]).1 {
                    Some(p) => p < nodes.len(),
                    None => true,
                },
        decreases MAX_NODES - nodes.len(),
    {
        let ghost before = stack@;
        let ghost listed = nodes@;
        let (node, parent, defines) = match stack.pop() {
            Some(entry) => entry,
            None => {
                return Some(SyntaxTree { nodes });
            },
        };
        assert(before.last() == (node, parent, defines));
        assert(stack@ == before.drop_last());
        if nodes.len() >= MAX_NODES {
            return None;
        }
        let index = nodes.len();
        let kind = NodeKind::from_name(kind_name(&node));
        nodes.push(
            SyntaxNode {
                kind,
                start_byte: start_of(&node),
                end_byte: end_of(&node),
                parent,
                defines,
            },
        );
        assert(nodes@ == listed.push(recorded_node(node, parent, defines)));
        let target = if kind.is_naming() {
            field_child(&node, "name")
        } else if kind == NodeKind::AssignmentExpression {
            field_child(&node, "left")
        } else {
            None
        };
        assert(target == defined_child(node));
        let count = child_count_of(&node);
        let ghost below = stack@;
        let mut i: usize = 0;
        while i < count
            invariant
                i <= count,
                count == node_child_count(node),
                target == defined_child(node),
                index + 1 == nodes.len(),
                with_children(below, node, index, 0) == with_children(
                    stack@,
                    node,
                    index,
                    i as int,
                ),
                forall|k: int|
                    0 <= k < stack.len() ==> match (#[trigger] stack@[k]).1 {
                        Some(p) => p < nodes.len(),
                        None => true,
                    },
            decreases count - i,
        {
            if let Some(child) = child_of(&node, i) {
                let is_target = match &target {
                    Some(t) => same_node(&child, t),
                    None => false,
                };
                stack.push((child, Some(index), is_target));
            }
            i += 1;
        }
        assert(walk(before, listed) == walk(stack@, nodes@));
    }
}

impl Default for JsAst {
    /// A parser with the JavaScript grammar assigned. Should the parser
    /// refuse the grammar, it is left without one and parses nothing.
    fn default() -> JsAst {
        let mut parser = new_parser();
        let _ = assign_javascript(&mut parser);
        JsAst { parser }
    }
}

impl JsAst {
    /// A parser with the JavaScript grammar assigned. `None` where the
    /// parser refuses the grammar, which it does for a grammar of another
    /// version than its own.
    pub fn new() -> Option<JsAst> {
        let mut parser = new_parser();
        if assign_javascript(&mut parser) {
            Some(JsAst { parser })
        } else {
            None
        }
    }

    /// Parses `src` and records the tree. `None` where the parser gives no
    /// tree, or one of more than `MAX_NODES` nodes.
    pub fn parse(&mut self, src: &str) -> (r: Option<SyntaxTree>)
        ensures
            r is Some ==> yields_tree(src@),
            yields_tree(src@) ==> r is Some || some_tree_is_too_large(),
            r matches Some(t) ==> t.wf() && exists|tree: Tree| recording(&tree) == Some(t.nodes@),
    {
        match parse_text(self, src) {
            Some(tree) => {
                let r = record(&tree);
                assert(r matches Some(t) ==> recording(&tree) == Some(t.nodes@));
                assert(r is None ==> recording(&tree) is None);
                r
            },
            None => None,
        }
    }
}

/// The places at which a statement may be put in: every node of statement
/// kind in walk order, or the root alone where the tree has none.
pub fn collect_statement_nodes(tree: &SyntaxTree, src: &str) -> (r: Vec<SyntaxNode>)
    requires
        tree.wf(),
    ensures
        r@ == insertion_points(tree.nodes@),
        r@.len() >= 1,
{
    let mut out: Vec<SyntaxNode> = Vec::new();
    let mut i: usize = 0;
    assert(tree.nodes@.take(0) == Seq::<SyntaxNode>::empty());
    while i < tree.nodes.len()
        invariant
            i <= tree.nodes.len(),
            out@ == statements_among(tree.nodes@.take(i as int)),
        decreases tree.nodes.len() - i,
    {
        let ghost upto = tree.nodes@.take(i + 1);
        assert(upto.drop_last() == tree.nodes@.take(i as int));
        assert(upto.last() == tree.nodes@[i as int]);
        let node = tree.nodes[i];
        if node.kind.is_statement() {
            out.push(node);
        }
        i += 1;
    }
    assert(tree.nodes@.take(tree.nodes.len() as int) == tree.nodes@);
    if out.len() == 0 {
        out.push(tree.nodes[0]);
    }
    out
}

/// The number of bytes that encode `c` in UTF-8.
pub fn width_of(c: char) -> (w: usize)
    ensures
        w == utf8_width(c),
{
    let u: u32 = c as u32;
    if u < 0x80 {
        1
    } else if u < 0x800 {
        2
    } else if u < 0x10000 {
        3
    } else {
        4
    }
}

/// The index of the character that the byte offset `bytes` falls on.
pub fn char_index(s: &Vec<char>, bytes: usize) -> (k: usize)
    ensures
        k == chars_before(s@, bytes as int),
        k <= s.len(),
{
    let mut k: usize = 0;
    let mut left: usize = bytes;
    assert(s@.skip(0) == s@);
    while k < s.len() && left >= width_of(s[k])
        invariant
            k <= s.len(),
            chars_before(s@, bytes as int) == k + chars_before(s@.skip(k as int), left as int),
        decreases s.len() - k,
    {
        assert(s@.skip(k as int).skip(1) == s@.skip(k + 1));
        left -= width_of(s[k]);
        k += 1;
    }
    k
}

/// Puts `insertion` into `src` just before the node, on a line of its own.
pub fn insert_at_node(src: &str, node: SyntaxNode, insertion: &str) -> (r: String)
    ensures
        r@ == inserted_at(src@, chars_before(src@, node.start_byte as int), insertion@),
{
    let s = to_chars(src);
    let text = to_chars(insertion);
    let k = char_index(&s, node.start_byte);
    let mut out: Vec<char> = Vec::new();
    let mut i: usize = 0;
    while i < k
        invariant
            i <= k <= s.len(),
            out@ == s@.take(i as int),
        decreases k - i,
    {
        out.push(s[i]);
        i += 1;
    }
    if !(k > 0 && s[k - 1] == '\n') {
        out.push('\n');
    }
    push_chars(&mut out, &text);
    if !(text.len() > 0 && text[text.len() - 1] == '\n') {
        out.push('\n');
    }
    let ghost before = out@;
    let mut j: usize = k;
    while j < s.len()
        invariant
            k <= j <= s.len(),
            out@ == before + s@.subrange(k as int, j as int),
        decreases s.len() - j,
    {
        out.push(s[j]);
        j += 1;
    }
    assert(s@.subrange(k as int, s.len() as int) == s@.skip(k as int));
    from_chars(&out)
}

} // verus!
