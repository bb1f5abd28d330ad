//! Calls in PHP source: what is called and with which arguments.
use vstd::prelude::*;
use vstd::string::*;
use vstd::utf8::*;

use crate::php;
use crate::php::{expression_node, extract_string_literal, sole_child, text_at, PhpKind, PhpNode};
use crate::text;

verus! {

/// The call of the given kind that the expression is, with the given number of parts.
pub open spec fn call_as(t: php::Tree, kind: PhpKind, parts: nat) -> Option<php::Tree> {
    match php::expression_as(t, PhpKind::Call) {
        Some(call) => match php::sole(call, kind) {
            Some(inner) => if inner.children.len() == parts {
                Some(inner)
            } else {
                None
            },
            None => None,
        },
        None => None,
    }
}

/// The call of the given kind that the expression is, with the given number of parts.
pub fn call_node<'a>(node: &'a PhpNode, kind: PhpKind, parts: usize) -> (r: Option<&'a PhpNode>)
    ensures
        php::is_node(r, call_as(node.tree(), kind, parts as nat)),
{
    match expression_node(node, PhpKind::Call) {
        Some(call) => match sole_child(call, kind) {
            Some(inner) => if inner.children.len() == parts {
                Some(inner)
            } else {
                None
            },
            None => None,
        },
        None => None,
    }
}

/// The name that the expression is, as it is written.
pub open spec fn name_of(t: php::Tree, content: Seq<char>) -> Option<Seq<char>> {
    match php::expression_as(t, PhpKind::Identifier) {
        Some(name) => php::span_text(content, name.start, name.end),
        None => None,
    }
}

/// The name that the expression is, as it is written.
pub fn name_text<'c>(node: &PhpNode, content: &'c str) -> (r: Option<&'c str>)
    ensures
        match r {
            Some(name) => name_of(node.tree(), content@) == Some(name@),
            None => name_of(node.tree(), content@) is None,
        },
{
    match expression_node(node, PhpKind::Identifier) {
        Some(name) => text_at(content, name.start, name.end),
        None => None,
    }
}

/// The value that an argument passes, whether by position or by name.
pub open spec fn argument_value(t: php::Tree) -> Option<php::Tree> {
    if t.kind == PhpKind::Argument && t.children.len() == 1 && (t.children[0].kind
        == PhpKind::PositionalArgument || t.children[0].kind == PhpKind::NamedArgument)
        && t.children[0].children.len() > 0 {
        Some(t.children[0].children.last())
    } else {
        None
    }
}

/// The value that an argument passes, whether by position or by name.
pub fn argument_value_node<'a>(node: &'a PhpNode) -> (r: Option<&'a PhpNode>)
    ensures
        php::is_node(r, argument_value(node.tree())),
{
    if node.kind != PhpKind::Argument || node.children.len() != 1 {
        return None;
    }
    let inner = &node.children[0];
    assert(node.tree().children[0] == inner.tree());
    let count = inner.children.len();
    if (inner.kind == PhpKind::PositionalArgument || inner.kind == PhpKind::NamedArgument)
        && count > 0 {
        assert(inner.tree().children.last() == inner.children@[count - 1].tree());
        Some(&inner.children[count - 1])
    } else {
        None
    }
}

/// The value of the first argument of a list of arguments.
pub open spec fn first_argument(t: php::Tree) -> Option<php::Tree> {
    if t.kind == PhpKind::ArgumentList && t.children.len() > 0 {
        argument_value(t.children[0])
    } else {
        None
    }
}

/// The value of the first argument of a list of arguments.
pub fn first_argument_node<'a>(node: &'a PhpNode) -> (r: Option<&'a PhpNode>)
    ensures
        php::is_node(r, first_argument(node.tree())),
{
    if node.kind == PhpKind::ArgumentList && node.children.len() > 0 {
        assert(node.tree().children[0] == node.children@[0].tree());
        argument_value_node(&node.children[0])
    } else {
        None
    }
}

/// The string literal that a list of arguments begins with.
pub open spec fn first_string(t: php::Tree, content: Seq<char>) -> Option<php::TextSpan> {
    match first_argument(t) {
        Some(value) => php::string_literal(value, content),
        None => None,
    }
}

/// The string literal that a list of arguments begins with.
pub fn first_string_argument<'c>(node: &PhpNode, content: &'c str) -> (r: Option<
    (&'c str, usize, usize),
>)
    ensures
        php::is_span(r, first_string(node.tree(), content@)),
{
    match first_argument_node(node) {
        Some(value) => extract_string_literal(value, content),
        None => None,
    }
}

/// A name without the backslash that makes it fully qualified.
pub open spec fn unqualified(name: Seq<char>) -> Seq<char> {
    if name.len() > 0 && name[0] == '\\' {
        name.skip(1)
    } else {
        name
    }
}

/// A name without the backslash that makes it fully qualified.
pub fn strip_fqn_prefix(name: &str) -> (r: &str)
    ensures
        r@ == unqualified(name@),
{
    let count = name.unicode_len();
    if count > 0 && name.get_char(0) == '\\' {
        assert(name@.subrange(1, count as int) =~= name@.skip(1));
        name.substring_char(1, count)
    } else {
        name
    }
}

/// The method that is called by name on an object, if the expression is such a call.
pub open spec fn method_name(t: php::Tree, content: Seq<char>) -> Option<Seq<char>> {
    match call_as(t, PhpKind::MethodCall, 3) {
        Some(call) => if call.children[1].kind == PhpKind::ClassLikeMemberSelector {
            match php::sole(call.children[1], PhpKind::LocalIdentifier) {
                Some(name) => php::span_text(content, name.start, name.end),
                None => None,
            }
        } else {
            None
        },
        None => None,
    }
}

/// The string literal with which the method `method` is called on an object, if the expression is
/// such a call. The case of the method's name does not matter.
pub open spec fn method_string(t: php::Tree, content: Seq<char>, method: Seq<char>) -> Option<
    php::TextSpan,
> {
    match method_name(t, content) {
        Some(name) => if text::same_ignoring_case(encode_utf8(name), encode_utf8(method)) {
            first_string(call_as(t, PhpKind::MethodCall, 3)->0.children[2], content)
        } else {
            None
        },
        None => None,
    }
}

/// The string literal with which the method `method` is called on an object, if the expression is
/// such a call. The case of the method's name does not matter.
pub fn method_string_argument<'c>(node: &PhpNode, content: &'c str, method: &str) -> (r: Option<
    (&'c str, usize, usize),
>)
    ensures
        php::is_span(r, method_string(node.tree(), content@, method@)),
{
    let call = match call_node(node, PhpKind::MethodCall, 3) {
        Some(call) => call,
        None => return None,
    };
    let selector = &call.children[1];
    assert(call.tree().children[1] == selector.tree());
    if selector.kind != PhpKind::ClassLikeMemberSelector {
        return None;
    }
    let name = match sole_child(selector, PhpKind::LocalIdentifier) {
        Some(name) => match text_at(content, name.start, name.end) {
            Some(name) => name,
            None => return None,
        },
        None => return None,
    };
    if !text::str_eq_ignoring_case(name, method) {
        return None;
    }
    assert(call.tree().children[2] == call.children@[2].tree());
    first_string_argument(&call.children[2], content)
}

} // verus!
