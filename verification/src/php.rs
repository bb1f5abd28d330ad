//! The syntax tree of PHP source.
//!
//! The parser lists the nodes of its tree, children before parents, each with its number of
//! children. That list is put together to a tree of [`PhpNode`]s again, which is what the rest of the
//! library reads.
use vstd::prelude::*;
use vstd::string::*;
use vstd::utf8::*;

use core::ops::ControlFlow;

use crate::text;

verus! {

/// The kinds of nodes that are told apart.
#[derive(Debug, Clone, Copy, PartialEq, Eq, Structural)]
pub enum PhpKind {
    Program,
    Statement,
    Return,
    ExpressionStatement,
    Expression,
    Parenthesized,
    Assignment,
    Variable,
    DirectVariable,
    Array,
    LegacyArray,
    ArrayElement,
    KeyValueArrayElement,
    Literal,
    LiteralString,
    Identifier,
    LocalIdentifier,
    Call,
    FunctionCall,
    MethodCall,
    ClassLikeMemberSelector,
    ArgumentList,
    Argument,
    PositionalArgument,
    NamedArgument,
    Other,
}

/// A node as the parser lists it: the name of its kind, its bytes in the source, and how many of the
/// nodes listed before it are its children.
#[derive(Debug, Clone, PartialEq, Eq)]
pub struct NodeRecord {
    pub kind: String,
    pub start: u32,
    pub end: u32,
    pub arity: usize,
}

/// A listed node with its kind as characters.
pub struct NodeEntry {
    pub kind: Seq<char>,
    pub start: u32,
    pub end: u32,
    pub arity: usize,
}

impl View for NodeRecord {
    type V = NodeEntry;

    open spec fn view(&self) -> NodeEntry {
        NodeEntry { kind: self.kind@, start: self.start, end: self.end, arity: self.arity }
    }
}

/// The views of a list of nodes.
pub open spec fn entries(v: Seq<NodeRecord>) -> Seq<NodeEntry> {
    v.map_values(|r: NodeRecord| r@)
}

/// A node of the syntax tree.
#[derive(Debug)]
pub struct PhpNode {
    pub kind: PhpKind,
    pub start: usize,
    pub end: usize,
    pub children: Vec<PhpNode>,
}

/// A syntax tree as a mathematical value.
pub struct Tree {
    pub kind: PhpKind,
    pub start: int,
    pub end: int,
    pub children: Seq<Tree>,
}

impl PhpNode {
    /// The tree below this node.
    pub open spec fn tree(self) -> Tree
        decreases self,
    {
        Tree {
            kind: self.kind,
            start: self.start as int,
            end: self.end as int,
            children: Seq::new(
                self.children@.len(),
                |i: int|
                    if 0 <= i < self.children@.len() {
                        self.children@[i].tree()
                    } else {
                        arbitrary()
                    },
            ),
        }
    }
}

/// The trees below a list of nodes.
pub open spec fn trees(v: Seq<PhpNode>) -> Seq<Tree> {
    v.map_values(|n: PhpNode| n.tree())
}

/// The kind with the given name.
pub open spec fn kind_named(name: Seq<char>) -> PhpKind {
    if name == "Program"@ {
        PhpKind::Program
    } else if name == "Statement"@ {
        PhpKind::Statement
    } else if name == "Return"@ {
        PhpKind::Return
    } else if name == "ExpressionStatement"@ {
        PhpKind::ExpressionStatement
    } else if name == "Expression"@ {
        PhpKind::Expression
    } else if name == "Parenthesized"@ {
        PhpKind::Parenthesized
    } else if name == "Assignment"@ {
        PhpKind::Assignment
    } else if name == "Variable"@ {
        PhpKind::Variable
    } else if name == "DirectVariable"@ {
        PhpKind::DirectVariable
    } else if name == "Array"@ {
        PhpKind::Array
    } else if name == "LegacyArray"@ {
        PhpKind::LegacyArray
    } else if name == "ArrayElement"@ {
        PhpKind::ArrayElement
    } else if name == "KeyValueArrayElement"@ {
        PhpKind::KeyValueArrayElement
    } else if name == "Literal"@ {
        PhpKind::Literal
    } else if name == "LiteralString"@ {
        PhpKind::LiteralString
    } else if name == "Identifier"@ {
        PhpKind::Identifier
    } else if name == "LocalIdentifier"@ {
        PhpKind::LocalIdentifier
    } else if name == "Call"@ {
        PhpKind::Call
    } else if name == "FunctionCall"@ {
        PhpKind::FunctionCall
    } else if name == "MethodCall"@ {
        PhpKind::MethodCall
    } else if name == "ClassLikeMemberSelector"@ {
        PhpKind::ClassLikeMemberSelector
    } else if name == "ArgumentList"@ {
        PhpKind::ArgumentList
    } else if name == "Argument"@ {
        PhpKind::Argument
    } else if name == "PositionalArgument"@ {
        PhpKind::PositionalArgument
    } else if name == "NamedArgument"@ {
        PhpKind::NamedArgument
    } else {
        PhpKind::Other
    }
}

/// Reads the listed nodes from the first to the last: each takes its children from the end of
/// `done` and is put there in their place.
pub open spec fn assemble(es: Seq<NodeEntry>, done: Seq<Tree>) -> Option<Seq<Tree>>
    decreases es.len(),
{
    if es.len() == 0 {
        Some(done)
    } else if es[0].arity > done.len() {
        None
    } else {
        let left = done.len() - es[0].arity;
        let node = Tree {
            kind: kind_named(es[0].kind),
            start: es[0].start as int,
            end: es[0].end as int,
            children: done.skip(left),
        };
        assemble(es.drop_first(), done.take(left).push(node))
    }
}

/// The tree whose nodes are listed, if they are those of one tree.
pub open spec fn tree_of(es: Seq<NodeEntry>) -> Option<Tree> {
    match assemble(es, Seq::empty()) {
        Some(done) => if done.len() == 1 {
            Some(done[0])
        } else {
            None
        },
        None => None,
    }
}

/// The kind with the given name.
pub fn kind_from_name(name: &str) -> (r: PhpKind)
    ensures
        r == kind_named(name@),
{
    if text::str_eq(name, "Program") {
        PhpKind::Program
    } else if text::str_eq(name, "Statement") {
        PhpKind::Statement
    } else if text::str_eq(name, "Return") {
        PhpKind::Return
    } else if text::str_eq(name, "ExpressionStatement") {
        PhpKind::ExpressionStatement
    } else if text::str_eq(name, "Expression") {
        PhpKind::Expression
    } else if text::str_eq(name, "Parenthesized") {
        PhpKind::Parenthesized
    } else if text::str_eq(name, "Assignment") {
        PhpKind::Assignment
    } else if text::str_eq(name, "Variable") {
        PhpKind::Variable
    } else if text::str_eq(name, "DirectVariable") {
        PhpKind::DirectVariable
    } else if text::str_eq(name, "Array") {
        PhpKind::Array
    } else if text::str_eq(name, "LegacyArray") {
        PhpKind::LegacyArray
    } else if text::str_eq(name, "ArrayElement") {
        PhpKind::ArrayElement
    } else if text::str_eq(name, "KeyValueArrayElement") {
        PhpKind::KeyValueArrayElement
    } else if text::str_eq(name, "Literal") {
        PhpKind::Literal
    } else if text::str_eq(name, "LiteralString") {
        PhpKind::LiteralString
    } else if text::str_eq(name, "Identifier") {
        PhpKind::Identifier
    } else if text::str_eq(name, "LocalIdentifier") {
        PhpKind::LocalIdentifier
    } else if text::str_eq(name, "Call") {
        PhpKind::Call
    } else if text::str_eq(name, "FunctionCall") {
        PhpKind::FunctionCall
    } else if text::str_eq(name, "MethodCall") {
        PhpKind::MethodCall
    } else if text::str_eq(name, "ClassLikeMemberSelector") {
        PhpKind::ClassLikeMemberSelector
    } else if text::str_eq(name, "ArgumentList") {
        PhpKind::ArgumentList
    } else if text::str_eq(name, "Argument") {
        PhpKind::Argument
    } else if text::str_eq(name, "PositionalArgument") {
        PhpKind::PositionalArgument
    } else if text::str_eq(name, "NamedArgument") {
        PhpKind::NamedArgument
    } else {
        PhpKind::Other
    }
}

/// Puts listed nodes together to their tree.
pub fn build_tree(records: &Vec<NodeRecord>) -> (r: Option<PhpNode>)
    ensures
        match r {
            Some(node) => tree_of(entries(records@)) == Some(node.tree()),
            None => tree_of(entries(records@)) is None,
        },
{
    let ghost es = entries(records@);
    let mut done: Vec<PhpNode> = Vec::new();
    let mut k: usize = 0;
    proof {
        assert(es.skip(0) =~= es);
        assert(trees(done@) =~= Seq::empty());
    }
    while k < records.len()
        invariant
            k <= records@.len(),
            es == entries(records@),
            assemble(es, Seq::empty()) == assemble(es.skip(k as int), trees(done@)),
        decreases records@.len() - k,
    {
        let record = &records[k];
        proof {
            assert(es.skip(k as int)[0] == record@);
            assert(es.skip(k as int).drop_first() =~= es.skip(k + 1));
        }
        if record.arity > done.len() {
            return None;
        }
        let left = done.len() - record.arity;
        let ghost before = trees(done@);
        let children = done.split_off(left);
        let node = PhpNode {
            kind: kind_from_name(record.kind.as_str()),
            start: record.start as usize,
            end: record.end as usize,
            children,
        };
        proof {
            assert(node.tree().children =~= before.skip(left as int));
            assert(trees(done@) =~= before.take(left as int));
        }
        let ghost rest = done@;
        done.push(node);
        proof {
            assert(trees(done@) =~= trees(rest).push(node.tree()));
        }
        k += 1;
    }
    assert(es.skip(k as int).len() == 0);
    assert(trees(done@).len() == done@.len());
    if done.len() == 1 {
        assert(trees(done@)[0] == done@[0].tree());
        return done.pop();
    }
    None
}

/// The nodes that the parser lists for PHP source.
pub uninterp spec fn php_nodes(content: Seq<char>) -> Seq<NodeEntry>;

/// Whether every offset into the source fits the 32 bits that the parser keeps for one.
pub open spec fn is_addressable(content: Seq<char>) -> bool {
    encode_utf8(content).len() <= u32::MAX
}

/// Parses PHP source with `mago_syntax::parser::parse_file_content`, in an arena of
/// `bumpalo::Bump::new` and under a file identifier of `mago_database::file::FileId::new`, and lists
/// the nodes of the tree with `mago_syntax::ast::Node::filter_map`, which hands out every node after
/// its children. Of each node the list holds the name of its `NodeKind`, the offsets of its span and
/// the number of its children.
///
/// Trusted: that the list depends on the source text alone. What it holds for a given text is not
/// stated, nor is anything about source that is nested so deeply that the stack runs out.
#[verifier::external_body]
fn parse_php(content: &str) -> (r: Vec<NodeRecord>)
    requires
        is_addressable(content@),
    ensures
        entries(r@) == php_nodes(content@),
{
    let arena = bumpalo::Bump::new();
    let file_id = mago_database::file::FileId::new("input.php");
    let program = mago_syntax::parser::parse_file_content(&arena, file_id, content);
    mago_syntax::ast::Node::Program(program).filter_map(|node| {
        Some(NodeRecord {
            kind: node.kind().to_string(),
            start: mago_span::HasSpan::start_offset(node),
            end: mago_span::HasSpan::end_offset(node),
            arity: node.children().len(),
        })
    })
}

/// The syntax tree of PHP source.
pub open spec fn php_tree(content: Seq<char>) -> Option<Tree> {
    tree_of(php_nodes(content))
}

/// Parses PHP source to its syntax tree.
pub fn parse_tree(content: &str) -> (r: Option<PhpNode>)
    requires
        is_addressable(content@),
    ensures
        match r {
            Some(node) => php_tree(content@) == Some(node.tree()),
            None => php_tree(content@) is None,
        },
{
    let records = parse_php(content);
    build_tree(&records)
}

/// The expressions of a tree, each before those inside it, from the first to the last in the source.
pub open spec fn expressions(t: Tree) -> Seq<Tree>
    decreases t,
{
    if t.kind == PhpKind::Expression {
        seq![t] + expressions_in(t.children)
    } else {
        expressions_in(t.children)
    }
}

/// The expressions of several trees.
pub open spec fn expressions_in(ts: Seq<Tree>) -> Seq<Tree>
    decreases ts,
{
    if ts.len() == 0 {
        Seq::empty()
    } else {
        expressions(ts[0]) + expressions_in(ts.drop_first())
    }
}

/// The trees below nodes that are held by reference.
pub open spec fn trees_of(v: Seq<&PhpNode>) -> Seq<Tree> {
    v.map_values(|n: &PhpNode| n.tree())
}

/// Appends the expressions of a node's tree.
fn add_expressions<'a>(node: &'a PhpNode, out: &mut Vec<&'a PhpNode>)
    ensures
        trees_of(final(out)@) == trees_of(old(out)@) + expressions(node.tree()),
    decreases node,
{
    let ghost t = node.tree();
    let ghost before = trees_of(out@);
    if node.kind == PhpKind::Expression {
        let ghost held = out@;
        out.push(node);
        assert(trees_of(out@) =~= trees_of(held).push(t));
    }
    let ghost own = trees_of(out@);
    let mut k: usize = 0;
    assert(t.children.skip(0) =~= t.children);
    while k < node.children.len()
        invariant
            k <= node.children@.len(),
            t == node.tree(),
            t.children.len() == node.children@.len(),
            own + expressions_in(t.children) == trees_of(out@) + expressions_in(
                t.children.skip(k as int),
            ),
        decreases node.children@.len() - k,
    {
        let ghost held = trees_of(out@);
        let ghost rest = t.children.skip(k as int);
        assert(rest[0] == node.children@[k as int].tree());
        assert(rest.drop_first() =~= t.children.skip(k + 1));
        add_expressions(&node.children[k], out);
        assert(held + expressions_in(rest) =~= trees_of(out@) + expressions_in(
            t.children.skip(k + 1),
        ));
        k += 1;
    }
    assert(t.children.skip(k as int).len() == 0);
    assert(own + expressions_in(t.children) =~= trees_of(out@));
}

/// The expressions of a node's tree, each before those inside it.
pub fn list_expressions<'a>(node: &'a PhpNode) -> (r: Vec<&'a PhpNode>)
    ensures
        trees_of(r@) == expressions(node.tree()),
{
    let mut out: Vec<&'a PhpNode> = Vec::new();
    add_expressions(node, &mut out);
    assert(trees_of(out@) =~= expressions(node.tree()));
    out
}

/// The expressions of PHP source.
pub open spec fn php_expressions(content: Seq<char>) -> Seq<Tree> {
    match php_tree(content) {
        Some(t) => expressions(t),
        None => Seq::empty(),
    }
}

/// A piece of the source: its characters and its bytes.
pub struct TextSpan {
    pub text: Seq<char>,
    pub start: int,
    pub end: int,
}

/// Whether `start` and `end` enclose whole characters of the text.
pub open spec fn encloses_text(content: Seq<char>, start: int, end: int) -> bool {
    &&& 0 <= start <= end <= encode_utf8(content).len()
    &&& is_char_boundary(encode_utf8(content), start)
    &&& is_char_boundary(encode_utf8(content), end)
}

/// The text from `start` to `end`, where these enclose whole characters.
pub open spec fn span_text(content: Seq<char>, start: int, end: int) -> Option<Seq<char>> {
    if encloses_text(content, start, end) {
        Some(text::between(encode_utf8(content), start, end))
    } else {
        None
    }
}

/// The text from `start` to `end`, where these enclose whole characters.
pub fn text_at<'c>(content: &'c str, start: usize, end: usize) -> (r: Option<&'c str>)
    ensures
        match r {
            Some(s) => span_text(content@, start as int, end as int) == Some(s@),
            None => span_text(content@, start as int, end as int) is None,
        },
{
    let size = content.as_bytes().len();
    if start <= end && end <= size && content.is_char_boundary(start)
        && content.is_char_boundary(end) {
        Some(text::slice(content, start, end))
    } else {
        None
    }
}

/// The child of a node that has no other, if it is of the given kind.
pub open spec fn sole(t: Tree, kind: PhpKind) -> Option<Tree> {
    if t.children.len() == 1 && t.children[0].kind == kind {
        Some(t.children[0])
    } else {
        None
    }
}

/// Whether a node is the one with the given tree.
pub open spec fn is_node(r: Option<&PhpNode>, t: Option<Tree>) -> bool {
    match r {
        Some(node) => t == Some(node.tree()),
        None => t is None,
    }
}

/// The child of a node that has no other, if it is of the given kind.
pub fn sole_child<'a>(node: &'a PhpNode, kind: PhpKind) -> (r: Option<&'a PhpNode>)
    ensures
        is_node(r, sole(node.tree(), kind)),
{
    if node.children.len() == 1 && node.children[0].kind == kind {
        assert(node.tree().children[0] == node.children@[0].tree());
        Some(&node.children[0])
    } else {
        None
    }
}

/// What the expression is, if it is of the given kind.
pub open spec fn expression_as(t: Tree, kind: PhpKind) -> Option<Tree> {
    if t.kind == PhpKind::Expression {
        sole(t, kind)
    } else {
        None
    }
}

/// What the expression is, if it is of the given kind.
pub fn expression_node<'a>(node: &'a PhpNode, kind: PhpKind) -> (r: Option<&'a PhpNode>)
    ensures
        is_node(r, expression_as(node.tree(), kind)),
{
    if node.kind == PhpKind::Expression {
        sole_child(node, kind)
    } else {
        None
    }
}

/// The string literal that the expression is.
pub open spec fn literal_node(t: Tree) -> Option<Tree> {
    match expression_as(t, PhpKind::Literal) {
        Some(literal) => sole(literal, PhpKind::LiteralString),
        None => None,
    }
}

/// What stands between the quotes, if the expression is a string literal.
pub open spec fn string_literal(t: Tree, content: Seq<char>) -> Option<TextSpan> {
    match literal_node(t) {
        Some(literal) => match span_text(content, literal.start + 1, literal.end - 1) {
            Some(text) => Some(TextSpan { text, start: literal.start + 1, end: literal.end - 1 }),
            None => None,
        },
        None => None,
    }
}

/// Whether an executable piece of text is the given one.
pub open spec fn is_span(r: Option<(&str, usize, usize)>, s: Option<TextSpan>) -> bool {
    match r {
        Some((text, start, end)) => s == Some(
            TextSpan { text: text@, start: start as int, end: end as int },
        ),
        None => s is None,
    }
}

/// What stands between the quotes of a string literal as it is written in the source, with the
/// offsets where it begins and ends.
pub fn extract_string_literal<'c>(expr: &PhpNode, content: &'c str) -> (r: Option<
    (&'c str, usize, usize),
>)
    ensures
        is_span(r, string_literal(expr.tree(), content@)),
{
    let literal = match expression_node(expr, PhpKind::Literal) {
        Some(inner) => match sole_child(inner, PhpKind::LiteralString) {
            Some(literal) => literal,
            None => return None,
        },
        None => return None,
    };
    if literal.start >= literal.end {
        return None;
    }
    let start = literal.start + 1;
    let end = literal.end - 1;
    match text_at(content, start, end) {
        Some(text) => Some((text, start, end)),
        None => None,
    }
}

/// The texts of the string literals among expressions.
pub open spec fn literals_among(es: Seq<Tree>, content: Seq<char>) -> Seq<Seq<char>>
    decreases es.len(),
{
    if es.len() == 0 {
        Seq::empty()
    } else {
        match string_literal(es[0], content) {
            Some(literal) => seq![literal.text] + literals_among(es.drop_first(), content),
            None => literals_among(es.drop_first(), content),
        }
    }
}

/// The texts of the string literals in a syntax tree.
pub fn collect_strings_in(root: &PhpNode, php: &str) -> (r: Vec<String>)
    ensures
        text::views(r@) == literals_among(expressions(root.tree()), php@),
{
    let nodes = list_expressions(root);
    let ghost es = trees_of(nodes@);
    let mut out: Vec<String> = Vec::new();
    let mut k: usize = 0;
    assert(es.skip(0) =~= es);
    assert(text::views(out@) =~= Seq::empty());
    while k < nodes.len()
        invariant
            k <= nodes@.len(),
            es == trees_of(nodes@),
            literals_among(es, php@) == text::views(out@) + literals_among(
                es.skip(k as int),
                php@,
            ),
        decreases nodes@.len() - k,
    {
        let ghost held = out@;
        let ghost rest = es.skip(k as int);
        assert(rest[0] == nodes@[k as int].tree());
        assert(rest.drop_first() =~= es.skip(k + 1));
        if let Some((literal, _, _)) = extract_string_literal(nodes[k], php) {
            out.push(literal.to_owned());
            assert(text::views(out@) =~= text::views(held).push(literal@));
        }
        assert(text::views(held) + literals_among(rest, php@) =~= text::views(out@)
            + literals_among(es.skip(k + 1), php@));
        k += 1;
    }
    assert(es.skip(k as int).len() == 0);
    assert(text::views(out@) =~= literals_among(es, php@));
    out
}

/// The texts of the string literals in PHP source.
pub open spec fn php_strings(content: Seq<char>) -> Seq<Seq<char>> {
    literals_among(php_expressions(content), content)
}

/// The texts of all string literals in PHP source, wherever they stand.
pub fn collect_strings(php: &str) -> (r: Vec<String>)
    requires
        is_addressable(php@),
    ensures
        text::views(r@) == php_strings(php@),
{
    match parse_tree(php) {
        Some(root) => collect_strings_in(&root, php),
        None => {
            let r: Vec<String> = Vec::new();
            assert(text::views(r@) =~= Seq::empty());
            r
        },
    }
}

/// Whether a text is among those of a list.
fn contains_text(v: &Vec<String>, needle: &str) -> (r: bool)
    ensures
        r == text::views(v@).contains(needle@),
{
    let mut k: usize = 0;
    while k < v.len()
        invariant
            k <= v@.len(),
            forall|j: int| 0 <= j < k ==> v@[j]@ != needle@,
        decreases v@.len() - k,
    {
        if text::str_eq(v[k].as_str(), needle) {
            assert(text::views(v@)[k as int] == needle@);
            return true;
        }
        k += 1;
    }
    proof {
        if text::views(v@).contains(needle@) {
            let j = choose|j: int|
                0 <= j < text::views(v@).len() && text::views(v@)[j] == needle@;
            assert(v@[j]@ == needle@);
        }
    }
    false
}

/// Whether PHP source holds a string literal with the given text.
pub fn has(php: &str, needle: &str) -> (r: bool)
    requires
        is_addressable(php@),
    ensures
        r == php_strings(php@).contains(needle@),
{
    contains_text(&collect_strings(php), needle)
}

/// Whether `result` can come of visiting the nodes from the first to the last, starting with `state`:
/// each visit takes the state so far and gives the next one, and ends the walk if it breaks.
pub open spec fn walk_gives<S, F: Fn(S, &PhpNode) -> ControlFlow<S, S>>(
    visit: F,
    nodes: Seq<&PhpNode>,
    state: S,
    result: S,
) -> bool
    decreases nodes.len(),
{
    if nodes.len() == 0 {
        result == state
    } else {
        exists|flow: ControlFlow<S, S>| #[trigger]
            call_ensures(visit, (state, nodes[0]), flow) && match flow {
                ControlFlow::Break(s) => result == s,
                ControlFlow::Continue(s) => walk_gives(visit, nodes.drop_first(), s, result),
            }
    }
}

/// Visits nodes from the first to the last.
fn walk_nodes<S, F: Fn(S, &PhpNode) -> ControlFlow<S, S>>(
    nodes: &Vec<&PhpNode>,
    state: S,
    visit: F,
) -> (r: S)
    requires
        forall|s: S, n: &PhpNode| call_requires(visit, (s, n)),
    ensures
        walk_gives(visit, nodes@, state, r),
{
    let ghost first = state;
    let mut current = state;
    let mut k: usize = 0;
    assert(nodes@.skip(0) =~= nodes@);
    while k < nodes.len()
        invariant
            k <= nodes@.len(),
            first == state,
            forall|s: S, n: &PhpNode| call_requires(visit, (s, n)),
            forall|r: S|
                #![trigger walk_gives(visit, nodes@, first, r)]
                walk_gives(visit, nodes@.skip(k as int), current, r) ==> walk_gives(
                    visit,
                    nodes@,
                    first,
                    r,
                ),
        decreases nodes@.len() - k,
    {
        let ghost rest = nodes@.skip(k as int);
        let ghost held = current;
        assert(rest[0] == nodes@[k as int]);
        assert(rest.drop_first() =~= nodes@.skip(k + 1));
        let flow = visit(current, nodes[k]);
        assert(call_ensures(visit, (held, rest[0]), flow));
        match flow {
            ControlFlow::Break(s) => {
                assert(walk_gives(visit, rest, held, s));
                return s;
            },
            ControlFlow::Continue(s) => {
                current = s;
                assert forall|r: S| #![trigger walk_gives(visit, nodes@, first, r)]
                    walk_gives(visit, nodes@.skip(k + 1), current, r) implies walk_gives(
                    visit,
                    nodes@,
                    first,
                    r,
                ) by {
                    assert(walk_gives(visit, rest, held, r));
                }
            },
        }
        k += 1;
    }
    assert(nodes@.skip(k as int).len() == 0);
    assert(walk_gives(visit, nodes@.skip(k as int), current, current));
    current
}

/// Visits every expression of PHP source, each before those inside it, until a visit breaks. The
/// state is handed from visit to visit.
pub fn walk_all_php_expressions<S, F: Fn(S, &PhpNode) -> ControlFlow<S, S>>(
    content: &str,
    state: S,
    visit: F,
) -> (r: S)
    requires
        is_addressable(content@),
        forall|s: S, n: &PhpNode| call_requires(visit, (s, n)),
    ensures
        exists|nodes: Seq<&PhpNode>|
            trees_of(nodes) == php_expressions(content@) && #[trigger] walk_gives(
                visit,
                nodes,
                state,
                r,
            ),
{
    let root = match parse_tree(content) {
        Some(root) => root,
        None => {
            let ghost none = Seq::<&PhpNode>::empty();
            assert(trees_of(none) =~= Seq::empty());
            assert(walk_gives(visit, none, state, state));
            return state;
        },
    };
    let nodes = list_expressions(&root);
    let ghost first = state;
    let r = walk_nodes(&nodes, state, visit);
    assert(walk_gives(visit, nodes@, first, r));
    r
}

/// What a listing says of a node: its kind, its span, and how many children it has.
pub struct NodeShape {
    pub kind: PhpKind,
    pub start: int,
    pub end: int,
    pub arity: nat,
}

/// What a listing says of its nodes.
pub open spec fn shapes(es: Seq<NodeEntry>) -> Seq<NodeShape> {
    es.map_values(
        |e: NodeEntry|
            NodeShape {
                kind: kind_named(e.kind),
                start: e.start as int,
                end: e.end as int,
                arity: e.arity as nat,
            },
    )
}

/// The nodes of a tree, each behind its children.
pub open spec fn listed(t: Tree) -> Seq<NodeShape>
    decreases t,
{
    listed_all(t.children).push(
        NodeShape { kind: t.kind, start: t.start, end: t.end, arity: t.children.len() },
    )
}

/// The nodes of several trees, one tree after the other.
pub open spec fn listed_all(ts: Seq<Tree>) -> Seq<NodeShape>
    decreases ts,
{
    if ts.len() == 0 {
        Seq::empty()
    } else {
        listed(ts[0]) + listed_all(ts.drop_first())
    }
}

/// The nodes of two lists of trees follow each other.
proof fn lemma_listed_concat(a: Seq<Tree>, b: Seq<Tree>)
    ensures
        listed_all(a + b) == listed_all(a) + listed_all(b),
    decreases a.len(),
{
    if a.len() == 0 {
        assert(a + b =~= b);
        assert(listed_all(a + b) =~= listed_all(a) + listed_all(b));
    } else {
        lemma_listed_concat(a.drop_first(), b);
        assert((a + b).drop_first() =~= a.drop_first() + b);
        assert((a + b)[0] == a[0]);
        assert(listed_all(a + b) =~= listed_all(a) + listed_all(b));
    }
}

/// The nodes of a single tree.
proof fn lemma_listed_single(t: Tree)
    ensures
        listed_all(seq![t]) == listed(t),
{
    assert(seq![t].drop_first() =~= Seq::empty());
    assert(listed_all(seq![t].drop_first()) =~= Seq::empty());
    assert(listed_all(seq![t]) =~= listed(t));
}

/// The trees that come of a listing have the listed nodes.
proof fn lemma_assembled_lists(es: Seq<NodeEntry>, done: Seq<Tree>)
    requires
        assemble(es, done) is Some,
    ensures
        listed_all(assemble(es, done)->0) == listed_all(done) + shapes(es),
    decreases es.len(),
{
    let out = assemble(es, done)->0;
    if es.len() == 0 {
        assert(listed_all(done) + shapes(es) =~= listed_all(done));
    } else {
        let left = done.len() - es[0].arity;
        let node = Tree {
            kind: kind_named(es[0].kind),
            start: es[0].start as int,
            end: es[0].end as int,
            children: done.skip(left),
        };
        let next = done.take(left).push(node);
        lemma_assembled_lists(es.drop_first(), next);
        lemma_listed_concat(done.take(left), done.skip(left));
        assert(done.take(left) + done.skip(left) =~= done);
        lemma_listed_concat(done.take(left), seq![node]);
        assert(done.take(left) + seq![node] =~= next);
        lemma_listed_single(node);
        assert(listed_all(next) =~= listed_all(done).push(shapes(es)[0]));
        assert(shapes(es) =~= seq![shapes(es)[0]] + shapes(es.drop_first()));
        assert(listed_all(next) + shapes(es.drop_first()) =~= listed_all(done) + shapes(es));
    }
}

/// A tree that is put together of a listing has the listed nodes, each behind its children.
pub proof fn law_tree_has_listed_nodes(es: Seq<NodeEntry>)
    requires
        tree_of(es) is Some,
    ensures
        listed(tree_of(es)->0) == shapes(es),
{
    let out = assemble(es, Seq::empty())->0;
    lemma_assembled_lists(es, Seq::empty());
    assert(out =~= seq![out[0]]);
    lemma_listed_single(out[0]);
    assert(listed_all(Seq::empty()) + shapes(es) =~= shapes(es));
}

/// The nodes of a tree, read after others, are put together to that tree.
proof fn lemma_assemble_tree(t: Tree, es: Seq<NodeEntry>, more: Seq<NodeEntry>, done: Seq<Tree>)
    requires
        shapes(es) == listed(t),
    ensures
        assemble(es + more, done) == assemble(more, done.push(t)),
    decreases t,
{
    let n = es.len() - 1;
    let init = es.drop_last();
    let last = es.last();
    assert(shapes(es).len() == es.len());
    assert(shapes(init) =~= listed_all(t.children)) by {
        assert(shapes(init) =~= shapes(es).drop_last());
        assert(listed(t).drop_last() =~= listed_all(t.children));
    }
    assert(shapes(es)[n] == listed(t).last());
    lemma_assemble_trees(t.children, init, seq![last] + more, done);
    assert(es + more =~= init + (seq![last] + more));
    let all = done + t.children;
    let rest = seq![last] + more;
    assert(rest.drop_first() =~= more);
    assert(all.skip(done.len() as int) =~= t.children);
    assert(all.take(done.len() as int) =~= done);
}

/// The nodes of several trees, read after others, are put together to those trees.
proof fn lemma_assemble_trees(
    ts: Seq<Tree>,
    es: Seq<NodeEntry>,
    more: Seq<NodeEntry>,
    done: Seq<Tree>,
)
    requires
        shapes(es) == listed_all(ts),
    ensures
        assemble(es + more, done) == assemble(more, done + ts),
    decreases ts,
{
    assert(shapes(es).len() == es.len());
    if ts.len() == 0 {
        assert(es + more =~= more);
        assert(done + ts =~= done);
    } else {
        let n = listed(ts[0]).len() as int;
        let head = es.take(n);
        let tail = es.skip(n);
        assert(shapes(head) =~= listed(ts[0])) by {
            assert(shapes(head) =~= shapes(es).take(n));
        }
        assert(shapes(tail) =~= listed_all(ts.drop_first())) by {
            assert(shapes(tail) =~= shapes(es).skip(n));
        }
        assert(es + more =~= head + (tail + more));
        lemma_assemble_tree(ts[0], head, tail + more, done);
        lemma_assemble_trees(ts.drop_first(), tail, more, done.push(ts[0]));
        assert(done.push(ts[0]) + ts.drop_first() =~= done + ts);
    }
}

/// A listing of the nodes of a tree, each behind its children, is put together to that tree.
pub proof fn law_listing_gives_tree(t: Tree, es: Seq<NodeEntry>)
    requires
        shapes(es) == listed(t),
    ensures
        tree_of(es) == Some(t),
{
    lemma_assemble_tree(t, es, Seq::empty(), Seq::empty());
    assert(es + Seq::<NodeEntry>::empty() =~= es);
    assert(Seq::<Tree>::empty().push(t) =~= seq![t]);
}

/// Whether `x` is the tree `t` or stands anywhere inside of it.
pub open spec fn is_in(x: Tree, t: Tree) -> bool
    decreases t,
{
    x == t || is_in_any(x, t.children)
}

/// Whether `x` is one of several trees or stands anywhere inside of one.
pub open spec fn is_in_any(x: Tree, ts: Seq<Tree>) -> bool
    decreases ts,
{
    ts.len() > 0 && (is_in(x, ts[0]) || is_in_any(x, ts.drop_first()))
}

/// The expressions of a tree are all the expressions anywhere in it, and nothing else.
pub proof fn law_expressions_are_complete(x: Tree, t: Tree)
    ensures
        expressions(t).contains(x) <==> x.kind == PhpKind::Expression && is_in(x, t),
    decreases t,
{
    lemma_expressions_in(x, t.children);
    if t.kind == PhpKind::Expression {
        text::lemma_contains_concat(seq![t], expressions_in(t.children), x);
        assert(seq![t][0] == t);
        assert(seq![t].contains(x) <==> x == t);
    }
}

/// The expressions of several trees are all the expressions anywhere in them.
proof fn lemma_expressions_in(x: Tree, ts: Seq<Tree>)
    ensures
        expressions_in(ts).contains(x) <==> x.kind == PhpKind::Expression && is_in_any(x, ts),
    decreases ts,
{
    if ts.len() > 0 {
        law_expressions_are_complete(x, ts[0]);
        lemma_expressions_in(x, ts.drop_first());
        text::lemma_contains_concat(expressions(ts[0]), expressions_in(ts.drop_first()), x);
    }
}

/// Exactly the string literals among the expressions are collected.
pub proof fn law_literals_are_complete(es: Seq<Tree>, content: Seq<char>, s: Seq<char>)
    ensures
        literals_among(es, content).contains(s) <==> exists|x: Tree|
            es.contains(x) && (#[trigger] string_literal(x, content) matches Some(l) && l.text == s),
    decreases es.len(),
{
    if es.len() > 0 {
        let rest = es.drop_first();
        law_literals_are_complete(rest, content, s);
        assert(es =~= seq![es[0]] + rest);
        assert forall|x: Tree| es.contains(x) <==> x == es[0] || rest.contains(x) by {
            text::lemma_contains_concat(seq![es[0]], rest, x);
            assert(seq![es[0]][0] == es[0]);
            assert(seq![es[0]].contains(x) <==> x == es[0]);
        }
        if let Some(l) = string_literal(es[0], content) {
            text::lemma_contains_concat(seq![l.text], literals_among(rest, content), s);
            assert(seq![l.text][0] == l.text);
            assert(seq![l.text].contains(s) <==> s == l.text);
            assert(es.contains(es[0]));
        }
    }
}

} // verus!
