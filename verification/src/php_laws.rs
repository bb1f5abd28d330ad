//! What holds of all calls and string literals in PHP source, told from the nodes of the tree alone.
use vstd::prelude::*;
use vstd::string::*;
use vstd::utf8::*;

use core::ops::ControlFlow;

use crate::php;
use crate::php::PhpKind;
use crate::php::Tree;
use crate::php_calls;
use crate::text;

verus! {

/// Whether two bytes are the same but for the case of an ASCII letter.
pub open spec fn same_but_case(x: u8, y: u8) -> bool {
    x == y || (0x41 <= x <= 0x5a && y == x + 0x20) || (0x41 <= y <= 0x5a && x == y + 0x20)
}

/// Whether two texts are the same but for the case of ASCII letters.
pub open spec fn texts_same_but_case(s: Seq<char>, t: Seq<char>) -> bool {
    let (a, b) = (encode_utf8(s), encode_utf8(t));
    a.len() == b.len() && forall|k: int| 0 <= k < a.len() ==> same_but_case(#[trigger] a[k], b[k])
}

/// Texts compare byte by byte, and only the case of ASCII letters does not count.
pub proof fn law_case_is_all_that_is_ignored(a: Seq<u8>, b: Seq<u8>)
    ensures
        text::same_ignoring_case(a, b) <==> a.len() == b.len() && forall|k: int|
            0 <= k < a.len() ==> same_but_case(#[trigger] a[k], b[k]),
{
    let (x, y) = (text::lower_all(a), text::lower_all(b));
    if text::same_ignoring_case(a, b) {
        assert(x.len() == y.len());
        assert forall|k: int| 0 <= k < a.len() implies same_but_case(#[trigger] a[k], b[k]) by {
            assert(x[k] == y[k]);
        }
    }
    if a.len() == b.len() && (forall|k: int|
        0 <= k < a.len() ==> same_but_case(#[trigger] a[k], b[k])) {
        assert forall|k: int| 0 <= k < x.len() implies x[k] == y[k] by {
            assert(same_but_case(a[k], b[k]));
        }
        assert(x =~= y);
    }
}

/// Whether `s` is what the source holds from `start` to `end`.
pub open spec fn spells(content: Seq<char>, start: int, end: int, s: Seq<char>) -> bool {
    let b = encode_utf8(content);
    &&& 0 <= start <= end <= b.len()
    &&& is_char_boundary(b, start)
    &&& is_char_boundary(b, end)
    &&& s == decode_utf8(b.subrange(start, end))
}

/// Whether an expression is a string literal with `s` between its quotes.
pub open spec fn is_string(t: Tree, content: Seq<char>, s: php::TextSpan) -> bool {
    &&& t.kind == PhpKind::Expression && t.children.len() == 1
    &&& t.children[0].kind == PhpKind::Literal && t.children[0].children.len() == 1
    &&& t.children[0].children[0].kind == PhpKind::LiteralString
    &&& s.start == t.children[0].children[0].start + 1
    &&& s.end == t.children[0].children[0].end - 1
    &&& spells(content, s.start, s.end, s.text)
}

/// An expression gives a string exactly if it is a string literal, and what it gives is what the
/// source holds between the quotes.
pub proof fn law_string_literal_is_text_between_quotes(t: Tree, content: Seq<char>, s: php::TextSpan)
    ensures
        php::string_literal(t, content) == Some(s) <==> is_string(t, content, s),
{
}

/// Whether an argument passes the given value, by position or by name.
pub open spec fn passes(argument: Tree, value: Tree) -> bool {
    &&& argument.kind == PhpKind::Argument && argument.children.len() == 1
    &&& argument.children[0].kind == PhpKind::PositionalArgument || argument.children[0].kind
        == PhpKind::NamedArgument
    &&& argument.children[0].children.len() > 0
    &&& argument.children[0].children.last() == value
}

/// Whether the first of the arguments is the string `s`.
pub open spec fn begins_with_string(arguments: Tree, content: Seq<char>, s: php::TextSpan) -> bool {
    &&& arguments.kind == PhpKind::ArgumentList && arguments.children.len() > 0
    &&& exists|value: Tree|
        passes(arguments.children[0], value) && #[trigger] is_string(value, content, s)
}

/// The first argument of a list is read whether it is passed by position or by name, and however many
/// follow it.
pub proof fn law_first_string_is_first_argument(arguments: Tree, content: Seq<char>, s: php::TextSpan)
    ensures
        php_calls::first_string(arguments, content) == Some(s) <==> begins_with_string(
            arguments,
            content,
            s,
        ),
{
    if arguments.kind == PhpKind::ArgumentList && arguments.children.len() > 0 {
        if let Some(value) = php_calls::argument_value(arguments.children[0]) {
            law_string_literal_is_text_between_quotes(value, content, s);
            assert(passes(arguments.children[0], value));
        }
    }
}

/// Whether an expression calls a method of `object`.
pub open spec fn is_method_call(t: Tree, object: Tree, selector: Tree, arguments: Tree) -> bool {
    &&& t.kind == PhpKind::Expression && t.children.len() == 1
    &&& t.children[0].kind == PhpKind::Call && t.children[0].children.len() == 1
    &&& t.children[0].children[0].kind == PhpKind::MethodCall
    &&& t.children[0].children[0].children.len() == 3
    &&& t.children[0].children[0].children[0] == object
    &&& t.children[0].children[0].children[1] == selector
    &&& t.children[0].children[0].children[2] == arguments
}

/// Whether a selector names a member as `name`.
pub open spec fn selects(selector: Tree, content: Seq<char>, name: Seq<char>) -> bool {
    &&& selector.kind == PhpKind::ClassLikeMemberSelector && selector.children.len() == 1
    &&& selector.children[0].kind == PhpKind::LocalIdentifier
    &&& spells(content, selector.children[0].start, selector.children[0].end, name)
}

/// Whether an expression calls the method `method`, in any case and whatever it is called on, with the
/// string `s` as its first argument.
pub open spec fn calls_method_with(
    t: Tree,
    content: Seq<char>,
    method: Seq<char>,
    s: php::TextSpan,
) -> bool {
    let call = t.children[0].children[0];
    &&& is_method_call(t, call.children[0], call.children[1], call.children[2])
    &&& begins_with_string(call.children[2], content, s)
    &&& exists|name: Seq<char>|
        #[trigger] selects(call.children[1], content, name) && texts_same_but_case(name, method)
}

/// A method call gives its string exactly if it calls the method, whatever it calls it on.
pub proof fn law_method_string_is_first_argument(
    t: Tree,
    content: Seq<char>,
    method: Seq<char>,
    s: php::TextSpan,
)
    ensures
        php_calls::method_string(t, content, method) == Some(s) <==> calls_method_with(
            t,
            content,
            method,
            s,
        ),
{
    let call = t.children[0].children[0];
    law_first_string_is_first_argument(call.children[2], content, s);
    if php_calls::method_string(t, content, method) == Some(s) {
        let name = php_calls::method_name(t, content)->0;
        law_case_is_all_that_is_ignored(encode_utf8(name), encode_utf8(method));
        assert(selects(call.children[1], content, name));
    }
    if calls_method_with(t, content, method, s) {
        let name = choose|name: Seq<char>|
            #[trigger] selects(call.children[1], content, name) && texts_same_but_case(
                name,
                method,
            );
        law_case_is_all_that_is_ignored(encode_utf8(name), encode_utf8(method));
    }
}

/// What a method is called on does not matter: two calls that differ in that alone give the same.
pub proof fn law_object_of_method_call_does_not_matter(
    t: Tree,
    u: Tree,
    a: Tree,
    b: Tree,
    selector: Tree,
    arguments: Tree,
    content: Seq<char>,
    method: Seq<char>,
)
    requires
        is_method_call(t, a, selector, arguments),
        is_method_call(u, b, selector, arguments),
    ensures
        php_calls::method_string(t, content, method) == php_calls::method_string(
            u,
            content,
            method,
        ),
{
}

/// Whether an expression calls a function.
pub open spec fn is_function_call(t: Tree, callee: Tree, arguments: Tree) -> bool {
    &&& t.kind == PhpKind::Expression && t.children.len() == 1
    &&& t.children[0].kind == PhpKind::Call && t.children[0].children.len() == 1
    &&& t.children[0].children[0].kind == PhpKind::FunctionCall
    &&& t.children[0].children[0].children.len() == 2
    &&& t.children[0].children[0].children[0] == callee
    &&& t.children[0].children[0].children[1] == arguments
}

/// Whether an expression is the name `name`.
pub open spec fn is_name(t: Tree, content: Seq<char>, name: Seq<char>) -> bool {
    &&& t.kind == PhpKind::Expression && t.children.len() == 1
    &&& t.children[0].kind == PhpKind::Identifier
    &&& spells(content, t.children[0].start, t.children[0].end, name)
}

/// An expression gives a name exactly if it is an identifier, and the name is what the source holds.
pub proof fn law_name_is_text_of_identifier(t: Tree, content: Seq<char>, name: Seq<char>)
    ensures
        php_calls::name_of(t, content) == Some(name) <==> is_name(t, content, name),
{
}

/// One leading backslash is taken off a name, and nothing else.
pub proof fn law_one_backslash_is_stripped(name: Seq<char>)
    ensures
        php_calls::unqualified(seq!['\\'] + name) == name,
        name.len() == 0 || name[0] != '\\' ==> php_calls::unqualified(name) == name,
{
    assert((seq!['\\'] + name).skip(1) =~= name);
}

/// The expressions of a tree are the tree, if it is one, and then those of its children in their
/// order.
pub proof fn law_expressions_come_in_order(t: Tree)
    ensures
        php::expressions(t) == (if t.kind == PhpKind::Expression {
            seq![t]
        } else {
            Seq::empty()
        }) + t.children.map_values(|c: Tree| php::expressions(c)).flatten(),
{
    lemma_expressions_flatten(t.children);
    assert(php::expressions(t) =~= (if t.kind == PhpKind::Expression {
        seq![t]
    } else {
        Seq::empty()
    }) + php::expressions_in(t.children));
}

/// The expressions of several trees follow each other.
proof fn lemma_expressions_flatten(ts: Seq<Tree>)
    ensures
        php::expressions_in(ts) == ts.map_values(|c: Tree| php::expressions(c)).flatten(),
    decreases ts.len(),
{
    let all = ts.map_values(|c: Tree| php::expressions(c));
    if ts.len() > 0 {
        lemma_expressions_flatten(ts.drop_first());
        assert(all.drop_first() =~= ts.drop_first().map_values(|c: Tree| php::expressions(c)));
    }
}

/// The literals of a list of expressions are those of its parts, in their order.
pub proof fn law_literals_come_in_order(es: Seq<Tree>, more: Seq<Tree>, content: Seq<char>)
    ensures
        php::literals_among(es + more, content) == php::literals_among(es, content)
            + php::literals_among(more, content),
    decreases es.len(),
{
    if es.len() == 0 {
        assert(es + more =~= more);
        assert(php::literals_among(es + more, content) =~= php::literals_among(es, content)
            + php::literals_among(more, content));
    } else {
        law_literals_come_in_order(es.drop_first(), more, content);
        assert((es + more).drop_first() =~= es.drop_first() + more);
        assert(php::literals_among(es + more, content) =~= php::literals_among(es, content)
            + php::literals_among(more, content));
    }
}

/// The name of a kind of nodes that is told apart.
pub open spec fn name_of_kind(kind: PhpKind) -> Option<Seq<char>> {
    match kind {
        PhpKind::Program => Some("Program"@),
        PhpKind::Statement => Some("Statement"@),
        PhpKind::Return => Some("Return"@),
        PhpKind::ExpressionStatement => Some("ExpressionStatement"@),
        PhpKind::Expression => Some("Expression"@),
        PhpKind::Parenthesized => Some("Parenthesized"@),
        PhpKind::Assignment => Some("Assignment"@),
        PhpKind::Variable => Some("Variable"@),
        PhpKind::DirectVariable => Some("DirectVariable"@),
        PhpKind::Array => Some("Array"@),
        PhpKind::LegacyArray => Some("LegacyArray"@),
        PhpKind::ArrayElement => Some("ArrayElement"@),
        PhpKind::KeyValueArrayElement => Some("KeyValueArrayElement"@),
        PhpKind::Literal => Some("Literal"@),
        PhpKind::LiteralString => Some("LiteralString"@),
        PhpKind::Identifier => Some("Identifier"@),
        PhpKind::LocalIdentifier => Some("LocalIdentifier"@),
        PhpKind::Call => Some("Call"@),
        PhpKind::FunctionCall => Some("FunctionCall"@),
        PhpKind::MethodCall => Some("MethodCall"@),
        PhpKind::ClassLikeMemberSelector => Some("ClassLikeMemberSelector"@),
        PhpKind::ArgumentList => Some("ArgumentList"@),
        PhpKind::Argument => Some("Argument"@),
        PhpKind::PositionalArgument => Some("PositionalArgument"@),
        PhpKind::NamedArgument => Some("NamedArgument"@),
        PhpKind::Other => None,
    }
}

/// A node is of a kind exactly if it has the name of that kind.
pub proof fn law_kinds_are_known_by_name(name: Seq<char>, kind: PhpKind)
    requires
        kind != PhpKind::Other,
    ensures
        php::kind_named(name) == kind <==> name_of_kind(kind) == Some(name),
{
    reveal_strlit("Program");
    reveal_strlit("Statement");
    reveal_strlit("Return");
    reveal_strlit("ExpressionStatement");
    reveal_strlit("Expression");
    reveal_strlit("Parenthesized");
    reveal_strlit("Assignment");
    reveal_strlit("Variable");
    reveal_strlit("DirectVariable");
    reveal_strlit("Array");
    reveal_strlit("LegacyArray");
    reveal_strlit("ArrayElement");
    reveal_strlit("KeyValueArrayElement");
    reveal_strlit("Literal");
    reveal_strlit("LiteralString");
    reveal_strlit("Identifier");
    reveal_strlit("LocalIdentifier");
    reveal_strlit("Call");
    reveal_strlit("FunctionCall");
    reveal_strlit("MethodCall");
    reveal_strlit("ClassLikeMemberSelector");
    reveal_strlit("ArgumentList");
    reveal_strlit("Argument");
    reveal_strlit("PositionalArgument");
    reveal_strlit("NamedArgument");
    assert("Program"@[0] != "Literal"@[0]);
    assert("Expression"@[0] != "Assignment"@[0]);
    assert("Expression"@[0] != "Identifier"@[0]);
    assert("Expression"@[0] != "MethodCall"@[0]);
    assert("Parenthesized"@[0] != "LiteralString"@[0]);
    assert("Parenthesized"@[0] != "NamedArgument"@[0]);
    assert("Assignment"@[0] != "Identifier"@[0]);
    assert("Assignment"@[0] != "MethodCall"@[0]);
    assert("Variable"@[0] != "Argument"@[0]);
    assert("ArrayElement"@[0] != "FunctionCall"@[0]);
    assert("ArrayElement"@[2] != "ArgumentList"@[2]);
    assert("LiteralString"@[0] != "NamedArgument"@[0]);
    assert("Identifier"@[0] != "MethodCall"@[0]);
    assert("FunctionCall"@[0] != "ArgumentList"@[0]);
    assert("Program"@.len() == 7);
    assert("Statement"@.len() == 9);
    assert("Return"@.len() == 6);
    assert("ExpressionStatement"@.len() == 19);
    assert("Expression"@.len() == 10);
    assert("Parenthesized"@.len() == 13);
    assert("Assignment"@.len() == 10);
    assert("Variable"@.len() == 8);
    assert("DirectVariable"@.len() == 14);
    assert("Array"@.len() == 5);
    assert("LegacyArray"@.len() == 11);
    assert("ArrayElement"@.len() == 12);
    assert("KeyValueArrayElement"@.len() == 20);
    assert("Literal"@.len() == 7);
    assert("LiteralString"@.len() == 13);
    assert("Identifier"@.len() == 10);
    assert("LocalIdentifier"@.len() == 15);
    assert("Call"@.len() == 4);
    assert("FunctionCall"@.len() == 12);
    assert("MethodCall"@.len() == 10);
    assert("ClassLikeMemberSelector"@.len() == 23);
    assert("ArgumentList"@.len() == 12);
    assert("Argument"@.len() == 8);
    assert("PositionalArgument"@.len() == 18);
    assert("NamedArgument"@.len() == 13);
}

/// Whether the states and a number of visits are those of a walk: each visit takes the state that the
/// one before it gave and continues with the next.
pub open spec fn is_trace<S, F: Fn(S, &php::PhpNode) -> ControlFlow<S, S>>(
    visit: F,
    nodes: Seq<&php::PhpNode>,
    states: Seq<S>,
) -> bool {
    &&& 0 < states.len() <= nodes.len() + 1
    &&& forall|k: int|
        0 <= k < states.len() - 1 ==> #[trigger] call_ensures(
            visit,
            (states[k], nodes[k]),
            ControlFlow::Continue(states[k + 1]),
        )
}

/// A walk goes from node to node in their order. It ends with the state that a visit breaks with, or,
/// where every visit continues, with that of the last.
pub proof fn law_walk_visits_until_a_break<S, F: Fn(S, &php::PhpNode) -> ControlFlow<S, S>>(
    visit: F,
    nodes: Seq<&php::PhpNode>,
    state: S,
    result: S,
) -> (states: Seq<S>)
    requires
        php::walk_gives(visit, nodes, state, result),
    ensures
        is_trace(visit, nodes, states),
        states[0] == state,
        (states.len() == nodes.len() + 1 && result == states.last()) || (states.len()
            <= nodes.len() && call_ensures(
            visit,
            (states.last(), nodes[states.len() - 1]),
            ControlFlow::Break(result),
        )),
    decreases nodes.len(),
{
    if nodes.len() == 0 {
        seq![state]
    } else {
        let flow = choose|flow: ControlFlow<S, S>| #[trigger]
            call_ensures(visit, (state, nodes[0]), flow) && match flow {
                ControlFlow::Break(s) => result == s,
                ControlFlow::Continue(s) => php::walk_gives(visit, nodes.drop_first(), s, result),
            };
        match flow {
            ControlFlow::Break(_) => seq![state],
            ControlFlow::Continue(s) => {
                let rest = nodes.drop_first();
                let below = law_walk_visits_until_a_break(visit, rest, s, result);
                let states = seq![state] + below;
                assert(states.last() == below.last());
                assert forall|k: int| 0 <= k < states.len() - 1 implies #[trigger] call_ensures(
                    visit,
                    (states[k], nodes[k]),
                    ControlFlow::Continue(states[k + 1]),
                ) by {
                    if k > 0 {
                        assert(states[k] == below[k - 1]);
                        assert(states[k + 1] == below[k]);
                        assert(nodes[k] == rest[k - 1]);
                        assert(call_ensures(
                            visit,
                            (below[k - 1], rest[k - 1]),
                            ControlFlow::Continue(below[k - 1 + 1]),
                        ));
                    } else {
                        assert(states[1] == below[0]);
                    }
                }
                assert(below.len() <= rest.len() ==> nodes[states.len() - 1] == rest[below.len()
                    - 1]);
                states
            },
        }
    }
}

/// Where the parser lists the nodes of a tree, the source has that tree, its expressions and its string
/// literals.
pub proof fn law_source_has_listed_tree(content: Seq<char>, t: Tree)
    requires
        php::shapes(php::php_nodes(content)) == php::listed(t),
    ensures
        php::php_tree(content) == Some(t),
        php::php_expressions(content) == php::expressions(t),
        php::php_strings(content) == php::literals_among(php::expressions(t), content),
{
    php::law_listing_gives_tree(t, php::php_nodes(content));
}

/// Whether `part` stands in the text with the given bytes before and up to its end.
pub open spec fn is_part(
    content: Seq<char>,
    start: int,
    end: int,
    part: Seq<char>,
    before: Seq<char>,
    behind: Seq<char>,
) -> bool {
    &&& content == before + part + behind
    &&& start == encode_utf8(before).len()
    &&& end == encode_utf8(before + part).len()
}

/// Two offsets give the text between them exactly if they enclose whole characters.
pub proof fn law_text_between_offsets(content: Seq<char>, start: int, end: int, part: Seq<char>)
    ensures
        php::span_text(content, start, end) == Some(part) <==> exists|
            before: Seq<char>,
            behind: Seq<char>,
        | #[trigger] is_part(content, start, end, part, before, behind),
{
    let b = encode_utf8(content);
    encode_utf8_valid_utf8(content);
    encode_utf8_decode_utf8(content);
    if php::span_text(content, start, end) == Some(part) {
        let head = b.subrange(0, end);
        let tail = b.subrange(end, b.len() as int);
        valid_utf8_split(b, end);
        decode_utf8_split(b, end);
        text::lemma_boundary_in_prefix(b, start, end);
        valid_utf8_split(head, start);
        decode_utf8_split(head, start);
        assert(head.subrange(0, start) =~= b.subrange(0, start));
        assert(head.subrange(start, head.len() as int) =~= b.subrange(start, end));
        let before = decode_utf8(b.subrange(0, start));
        let behind = decode_utf8(tail);
        assert(before + part == decode_utf8(head));
        assert(content == before + part + behind);
        decode_utf8_encode_utf8(head);
        decode_utf8_encode_utf8(b.subrange(0, start));
        assert(is_part(content, start, end, part, before, behind));
    }
    if exists|before: Seq<char>, behind: Seq<char>| #[trigger]
        is_part(content, start, end, part, before, behind) {
        let (before, behind) = choose|before: Seq<char>, behind: Seq<char>| #[trigger]
            is_part(content, start, end, part, before, behind);
        text::lemma_encode_concat(before, part);
        text::lemma_encode_concat(before + part, behind);
        lemma_boundary_between(before, part + behind);
        lemma_boundary_between(before + part, behind);
        assert(before + (part + behind) =~= content);
        assert(b.subrange(start, end) =~= encode_utf8(part));
        encode_utf8_decode_utf8(part);
    }
}

/// Between two texts that are put together there is a boundary of characters.
proof fn lemma_boundary_between(a: Seq<char>, b: Seq<char>)
    ensures
        is_char_boundary(encode_utf8(a + b), encode_utf8(a).len() as int),
    decreases a.len(),
{
    text::lemma_encode_concat(a, b);
    let all = encode_utf8(a + b);
    let n = encode_utf8(a).len() as int;
    encode_utf8_valid_utf8(a + b);
    encode_utf8_valid_utf8(b);
    if b.len() == 0 {
        assert(a + b =~= a);
        is_char_boundary_start_end_of_seq(all);
    } else {
        encode_utf8_first_scalar(b);
        let tail = encode_utf8(b);
        is_char_boundary_start_end_of_seq(tail);
        assert(tail.len() > 0);
        is_char_boundary_iff_not_is_continuation_byte(tail, 0);
        assert(all[n] == tail[0]);
        is_char_boundary_iff_not_is_continuation_byte(all, n);
    }
}

/// A string literal gives its text once, and any other expression gives nothing.
pub proof fn law_literal_gives_its_text(t: Tree, content: Seq<char>)
    ensures
        forall|s: php::TextSpan| #[trigger]
            is_string(t, content, s) ==> php::literals_among(seq![t], content) == seq![s.text],
        (forall|s: php::TextSpan| !#[trigger] is_string(t, content, s)) ==> php::literals_among(
            seq![t],
            content,
        ).len() == 0,
{
    assert(seq![t].drop_first() =~= Seq::empty());
    assert(php::literals_among(seq![t].drop_first(), content) =~= Seq::empty());
    assert(seq![t][0] == t);
    assert forall|s: php::TextSpan| #[trigger] is_string(t, content, s) implies php::literals_among(
        seq![t],
        content,
    ) == seq![s.text] by {
        law_string_literal_is_text_between_quotes(t, content, s);
        assert(php::literals_among(seq![t], content) =~= seq![s.text]);
    }
    if let Some(s) = php::string_literal(t, content) {
        law_string_literal_is_text_between_quotes(t, content, s);
        assert(is_string(t, content, s));
    }
}

} // verus!
