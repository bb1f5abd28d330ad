//! What holds of all translation keys, told from the nodes of the tree alone.
use vstd::prelude::*;
use vstd::string::*;
use vstd::utf8::*;

use crate::config_keys;
use crate::php;
use crate::php::PhpKind;
use crate::php::Tree;
use crate::php_calls;
use crate::php_laws;
use crate::text;
use crate::trans_keys;
use crate::trans_keys::TransKey;

verus! {

/// Whether an expression calls `array_merge`, in any case.
pub open spec fn merges(t: Tree, content: Seq<char>) -> bool {
    let call = t.children[0].children[0];
    &&& php_laws::is_function_call(t, call.children[0], call.children[1])
    &&& call.children[1].kind == PhpKind::ArgumentList
    &&& exists|name: Seq<char>|
        #[trigger] php_laws::is_name(call.children[0], content, name)
            && php_laws::texts_same_but_case(name, "array_merge"@)
}

/// A call is taken for one of `array_merge` exactly if it is one.
proof fn lemma_merges(t: Tree, content: Seq<char>)
    ensures
        trans_keys::is_merge(t, content) <==> merges(t, content),
{
    let call = t.children[0].children[0];
    let merge = "array_merge"@;
    if trans_keys::is_merge(t, content) {
        let name = php_calls::name_of(call.children[0], content)->0;
        assert(php_laws::is_name(call.children[0], content, name));
        php_laws::law_case_is_all_that_is_ignored(encode_utf8(name), encode_utf8(merge));
    }
    if merges(t, content) {
        let name = choose|name: Seq<char>|
            #[trigger] php_laws::is_name(call.children[0], content, name)
                && php_laws::texts_same_but_case(name, merge);
        php_laws::law_name_is_text_of_identifier(call.children[0], content, name);
        php_laws::law_case_is_all_that_is_ignored(encode_utf8(name), encode_utf8(merge));
    }
}

/// Whether `e` is an element of the array that an expression stands for: of the array itself, of the
/// array in parentheses, or of one of the arrays that `array_merge` merges.
pub open spec fn holds(t: Tree, e: Tree, content: Seq<char>) -> bool
    decreases t,
{
    &&& t.kind == PhpKind::Expression && t.children.len() == 1
    &&& {
        ||| (t.children[0].kind == PhpKind::Array || t.children[0].kind == PhpKind::LegacyArray)
            && t.children[0].children.contains(e)
        ||| t.children[0].kind == PhpKind::Parenthesized && t.children[0].children.len() == 1
            && holds(t.children[0].children[0], e, content)
        ||| merges(t, content) && any_holds(
            t.children[0].children[0].children[1].children,
            e,
            content,
        )
    }
}

/// Whether `e` is an element of an array that one of the arguments passes.
pub open spec fn any_holds(arguments: Seq<Tree>, e: Tree, content: Seq<char>) -> bool
    decreases arguments,
{
    arguments.len() > 0 && ((php_laws::passes(
        arguments[0],
        arguments[0].children[0].children.last(),
    ) && holds(arguments[0].children[0].children.last(), e, content)) || any_holds(arguments.drop_first(), e, content))
}

/// Whether an element of an array has the string `key` as its key, and `value` as its value.
pub open spec fn is_entry(e: Tree, content: Seq<char>, key: php::TextSpan, value: Tree) -> bool {
    &&& e.kind == PhpKind::ArrayElement && e.children.len() == 1
    &&& e.children[0].kind == PhpKind::KeyValueArrayElement
    &&& e.children[0].children.len() == 2
    &&& php_laws::is_string(e.children[0].children[0], content, key)
    &&& e.children[0].children[1] == value
}

/// Whether the keys `names` lead from an element through the arrays below it to a key at `start`.
pub open spec fn leads_from(e: Tree, content: Seq<char>, names: Seq<Seq<char>>, start: int) -> bool
    decreases names.len(), 0nat,
{
    names.len() > 0 && exists|key: php::TextSpan, value: Tree|
        #[trigger] is_entry(e, content, key, value) && key.text == names[0] && (if names.len()
            == 1 {
            start == key.start
        } else {
            leads_to(value, content, names.drop_first(), start)
        })
}

/// Whether the keys `names` lead from an array through the arrays below it to a key at `start`.
pub open spec fn leads_to(t: Tree, content: Seq<char>, names: Seq<Seq<char>>, start: int) -> bool
    decreases names.len(), 1nat,
{
    names.len() > 0 && exists|e: Tree|
        #[trigger] holds(t, e, content) && leads_from(e, content, names, start)
}

/// Whether a key is made of names that lead to it from an array.
pub open spec fn is_reached(
    t: Tree,
    content: Seq<char>,
    prefix: Seq<char>,
    path: Seq<Seq<char>>,
    k: TransKey,
) -> bool {
    exists|names: Seq<Seq<char>>|
        #[trigger] leads_to(t, content, names, k.start) && k.key == config_keys::dotted(
            prefix,
            path + names,
        )
}

/// What an element declares: its own key, and the keys in its value.
spec fn gives(
    e: Tree,
    content: Seq<char>,
    prefix: Seq<char>,
    path: Seq<Seq<char>>,
    k: TransKey,
) -> bool {
    exists|key: php::TextSpan, value: Tree|
        #[trigger] is_entry(e, content, key, value) && (k == (TransKey {
            key: config_keys::dotted(prefix, path.push(key.text)),
            start: key.start,
        }) || trans_keys::keys_in(value, content, prefix, path.push(key.text)).contains(k))
}

/// An element has a string key and a value exactly if it is an entry with them.
proof fn lemma_keyed_value(e: Tree, content: Seq<char>, key: php::TextSpan, value: Tree)
    ensures
        trans_keys::keyed_value(e, content) == Some((key, value)) <==> is_entry(
            e,
            content,
            key,
            value,
        ),
{
    php_laws::law_string_literal_is_text_between_quotes(
        e.children[0].children[0],
        content,
        key,
    );
}

/// The keys of the elements of an array are what the elements give.
proof fn lemma_elements(
    es: Seq<Tree>,
    content: Seq<char>,
    prefix: Seq<char>,
    path: Seq<Seq<char>>,
    k: TransKey,
)
    ensures
        trans_keys::keys_in_elements(es, content, prefix, path).contains(k) <==> exists|e: Tree|
            es.contains(e) && #[trigger] gives(e, content, prefix, path, k),
    decreases es.len(),
{
    if es.len() > 0 {
        let rest = es.drop_first();
        let behind = trans_keys::keys_in_elements(rest, content, prefix, path);
        lemma_elements(rest, content, prefix, path, k);
        lemma_first_or_rest(es);
        match trans_keys::keyed_value(es[0], content) {
            Some((key, value)) => {
                lemma_keyed_value(es[0], content, key, value);
                let inner = path.push(key.text);
                let own = TransKey { key: config_keys::dotted(prefix, inner), start: key.start };
                let below = trans_keys::keys_in(value, content, prefix, inner);
                assert(value == es[0].children[0].children[1]);
                text::lemma_contains_concat(seq![own], below, k);
                text::lemma_contains_concat(seq![own] + below, behind, k);
                assert(seq![own][0] == own);
                assert(seq![own].contains(k) <==> k == own);
                assert(gives(es[0], content, prefix, path, k) <==> k == own || below.contains(
                    k,
                )) by {
                    if gives(es[0], content, prefix, path, k) {
                        let (key2, value2) = choose|key2: php::TextSpan, value2: Tree|
                            #[trigger] is_entry(es[0], content, key2, value2) && (k == (TransKey {
                                key: config_keys::dotted(prefix, path.push(key2.text)),
                                start: key2.start,
                            }) || trans_keys::keys_in(
                                value2,
                                content,
                                prefix,
                                path.push(key2.text),
                            ).contains(k));
                        lemma_keyed_value(es[0], content, key2, value2);
                    }
                }
            },
            None => {
                assert(!gives(es[0], content, prefix, path, k)) by {
                    if gives(es[0], content, prefix, path, k) {
                        let (key, value) = choose|key: php::TextSpan, value: Tree|
                            #[trigger] is_entry(es[0], content, key, value) && (k == (TransKey {
                                key: config_keys::dotted(prefix, path.push(key.text)),
                                start: key.start,
                            }) || trans_keys::keys_in(
                                value,
                                content,
                                prefix,
                                path.push(key.text),
                            ).contains(k));
                        lemma_keyed_value(es[0], content, key, value);
                    }
                }
            },
        }
        if exists|e: Tree| rest.contains(e) && #[trigger] gives(e, content, prefix, path, k) {
            let e = choose|e: Tree| rest.contains(e) && #[trigger] gives(e, content, prefix, path, k);
            assert(es.contains(e));
        }
        assert(es.contains(es[0]));
    }
}

/// What is in a list is its first or among the rest.
proof fn lemma_first_or_rest(es: Seq<Tree>)
    requires
        es.len() > 0,
    ensures
        forall|x: Tree| #[trigger] es.contains(x) <==> x == es[0] || es.drop_first().contains(x),
{
    let rest = es.drop_first();
    assert(es =~= seq![es[0]] + rest);
    assert forall|x: Tree| #[trigger] es.contains(x) <==> x == es[0] || rest.contains(x) by {
        text::lemma_contains_concat(seq![es[0]], rest, x);
        assert(seq![es[0]][0] == es[0]);
        assert(seq![es[0]].contains(x) <==> x == es[0]);
    }
}

/// The keys of an expression are what the elements that it holds give.
proof fn lemma_keys_in(
    t: Tree,
    content: Seq<char>,
    prefix: Seq<char>,
    path: Seq<Seq<char>>,
    k: TransKey,
)
    ensures
        trans_keys::keys_in(t, content, prefix, path).contains(k) <==> exists|e: Tree|
            #[trigger] holds(t, e, content) && gives(e, content, prefix, path, k),
    decreases t,
{
    let inner = t.children[0];
    lemma_merges(t, content);
    let found = exists|e: Tree|
        #[trigger] holds(t, e, content) && gives(e, content, prefix, path, k);
    let chosen = choose|e: Tree|
        #[trigger] holds(t, e, content) && gives(e, content, prefix, path, k);
    if t.kind != PhpKind::Expression || t.children.len() != 1 {
    } else if inner.kind == PhpKind::Array || inner.kind == PhpKind::LegacyArray {
        lemma_elements(inner.children, content, prefix, path, k);
        if found {
            assert(inner.children.contains(chosen) && gives(chosen, content, prefix, path, k));
        }
        if trans_keys::keys_in(t, content, prefix, path).contains(k) {
            let e = choose|e: Tree|
                inner.children.contains(e) && #[trigger] gives(e, content, prefix, path, k);
            assert(holds(t, e, content));
        }
    } else if inner.kind == PhpKind::Parenthesized && inner.children.len() == 1 {
        lemma_keys_in(inner.children[0], content, prefix, path, k);
        if found {
            assert(holds(inner.children[0], chosen, content));
        }
        if trans_keys::keys_in(t, content, prefix, path).contains(k) {
            let e = choose|e: Tree|
                #[trigger] holds(inner.children[0], e, content) && gives(
                    e,
                    content,
                    prefix,
                    path,
                    k,
                );
            assert(holds(t, e, content));
        }
    } else if trans_keys::is_merge(t, content) {
        let arguments = inner.children[0].children[1].children;
        lemma_keys_in_arguments(arguments, content, prefix, path, k);
        if found {
            assert(any_holds(arguments, chosen, content));
        }
        if trans_keys::keys_in(t, content, prefix, path).contains(k) {
            let e = choose|e: Tree|
                #[trigger] any_holds(arguments, e, content) && gives(e, content, prefix, path, k);
            assert(holds(t, e, content));
        }
    }
}

/// The keys of arguments are what the elements that they hold give.
proof fn lemma_keys_in_arguments(
    es: Seq<Tree>,
    content: Seq<char>,
    prefix: Seq<char>,
    path: Seq<Seq<char>>,
    k: TransKey,
)
    ensures
        trans_keys::keys_in_arguments(es, content, prefix, path).contains(k) <==> exists|e: Tree|
            #[trigger] any_holds(es, e, content) && gives(e, content, prefix, path, k),
    decreases es,
{
    if es.len() > 0 {
        let rest = es.drop_first();
        let behind = trans_keys::keys_in_arguments(rest, content, prefix, path);
        lemma_keys_in_arguments(rest, content, prefix, path, k);
        let found = exists|e: Tree|
            #[trigger] any_holds(es, e, content) && gives(e, content, prefix, path, k);
        let chosen = choose|e: Tree|
            #[trigger] any_holds(es, e, content) && gives(e, content, prefix, path, k);
        if found && any_holds(rest, chosen, content) {
            assert(behind.contains(k));
        }
        if php_calls::argument_value(es[0]) is Some {
            let value = es[0].children[0].children.last();
            lemma_keys_in(value, content, prefix, path, k);
            if found && holds(value, chosen, content) {
                assert(trans_keys::keys_in(value, content, prefix, path).contains(k));
            }
            text::lemma_contains_concat(
                trans_keys::keys_in(value, content, prefix, path),
                behind,
                k,
            );
            if trans_keys::keys_in(value, content, prefix, path).contains(k) {
                let e = choose|e: Tree|
                    #[trigger] holds(value, e, content) && gives(e, content, prefix, path, k);
                assert(any_holds(es, e, content));
            }
        }
        if behind.contains(k) {
            let e = choose|e: Tree|
                #[trigger] any_holds(rest, e, content) && gives(e, content, prefix, path, k);
            assert(any_holds(es, e, content));
        }
    }
}

/// How many nodes a tree has.
spec fn size(t: Tree) -> nat
    decreases t,
{
    1 + sizes(t.children)
}

/// How many nodes several trees have.
spec fn sizes(ts: Seq<Tree>) -> nat
    decreases ts,
{
    if ts.len() == 0 {
        0
    } else {
        size(ts[0]) + sizes(ts.drop_first())
    }
}

/// Each of several trees has no more nodes than all of them.
proof fn lemma_size_of_one(ts: Seq<Tree>, i: int)
    requires
        0 <= i < ts.len(),
    ensures
        size(ts[i]) <= sizes(ts),
    decreases ts.len(),
{
    if i > 0 {
        lemma_size_of_one(ts.drop_first(), i - 1);
        assert(ts.drop_first()[i - 1] == ts[i]);
    }
}

/// A child has fewer nodes than its parent.
proof fn lemma_child_is_smaller(t: Tree, i: int)
    requires
        0 <= i < t.children.len(),
    ensures
        size(t.children[i]) < size(t),
{
    lemma_size_of_one(t.children, i);
}

/// An element that an expression holds has fewer nodes than the expression.
proof fn lemma_held_is_smaller(t: Tree, e: Tree, content: Seq<char>)
    requires
        holds(t, e, content),
    ensures
        size(e) < size(t),
    decreases t,
{
    let inner = t.children[0];
    lemma_child_is_smaller(t, 0);
    if (inner.kind == PhpKind::Array || inner.kind == PhpKind::LegacyArray)
        && inner.children.contains(e) {
        let i = inner.children.index_of(e);
        lemma_child_is_smaller(inner, i);
    } else if inner.kind == PhpKind::Parenthesized && inner.children.len() == 1 && holds(
        inner.children[0],
        e,
        content,
    ) {
        lemma_held_is_smaller(inner.children[0], e, content);
        lemma_child_is_smaller(inner, 0);
    } else {
        let call = inner.children[0];
        lemma_child_is_smaller(inner, 0);
        lemma_child_is_smaller(call, 1);
        lemma_any_held_is_smaller(call.children[1].children, e, content);
    }
}

/// An element that an argument holds has fewer nodes than the arguments.
proof fn lemma_any_held_is_smaller(es: Seq<Tree>, e: Tree, content: Seq<char>)
    requires
        any_holds(es, e, content),
    ensures
        size(e) < sizes(es),
    decreases es,
{
    let passed = es[0].children[0];
    let value = passed.children.last();
    if php_laws::passes(es[0], value) && holds(value, e, content) {
        lemma_held_is_smaller(value, e, content);
        lemma_child_is_smaller(passed, passed.children.len() - 1);
        lemma_child_is_smaller(es[0], 0);
    } else {
        lemma_any_held_is_smaller(es.drop_first(), e, content);
    }
}

/// A key that names lead to is declared.
proof fn lemma_reached_is_declared(
    t: Tree,
    content: Seq<char>,
    prefix: Seq<char>,
    path: Seq<Seq<char>>,
    names: Seq<Seq<char>>,
    start: int,
)
    requires
        leads_to(t, content, names, start),
    ensures
        trans_keys::keys_in(t, content, prefix, path).contains(
            TransKey { key: config_keys::dotted(prefix, path + names), start },
        ),
    decreases names.len(),
{
    let k = TransKey { key: config_keys::dotted(prefix, path + names), start };
    let e = choose|e: Tree|
        #[trigger] holds(t, e, content) && leads_from(e, content, names, start);
    let (key, value) = choose|key: php::TextSpan, value: Tree|
        #[trigger] is_entry(e, content, key, value) && key.text == names[0] && (if names.len() == 1 {
            start == key.start
        } else {
            leads_to(value, content, names.drop_first(), start)
        });
    let inner = path.push(key.text);
    if names.len() == 1 {
        assert(path + names =~= inner);
    } else {
        lemma_reached_is_declared(value, content, prefix, inner, names.drop_first(), start);
        assert(inner + names.drop_first() =~= path + names);
    }
    assert(is_entry(e, content, key, value));
    assert(gives(e, content, prefix, path, k));
    lemma_keys_in(t, content, prefix, path, k);
}

/// A key that is declared is one that names lead to.
proof fn lemma_declared_is_reached(
    t: Tree,
    content: Seq<char>,
    prefix: Seq<char>,
    path: Seq<Seq<char>>,
    k: TransKey,
)
    requires
        trans_keys::keys_in(t, content, prefix, path).contains(k),
    ensures
        is_reached(t, content, prefix, path, k),
    decreases size(t),
{
    lemma_keys_in(t, content, prefix, path, k);
    let e = choose|e: Tree|
        #[trigger] holds(t, e, content) && gives(e, content, prefix, path, k);
    let (key, value) = choose|key: php::TextSpan, value: Tree|
        #[trigger] is_entry(e, content, key, value) && (k == (TransKey {
            key: config_keys::dotted(prefix, path.push(key.text)),
            start: key.start,
        }) || trans_keys::keys_in(value, content, prefix, path.push(key.text)).contains(k));
    let inner = path.push(key.text);
    assert(is_entry(e, content, key, value));
    if k == (TransKey { key: config_keys::dotted(prefix, inner), start: key.start }) {
        let names = seq![key.text];
        assert(leads_from(e, content, names, k.start));
        assert(leads_to(t, content, names, k.start));
        assert(path + names =~= inner);
    } else {
        lemma_held_is_smaller(t, e, content);
        lemma_child_is_smaller(e, 0);
        lemma_child_is_smaller(e.children[0], 1);
        lemma_declared_is_reached(value, content, prefix, inner, k);
        let below = choose|names: Seq<Seq<char>>|
            #[trigger] leads_to(value, content, names, k.start) && k.key == config_keys::dotted(
                prefix,
                inner + names,
            );
        let names = seq![key.text] + below;
        assert(names.drop_first() =~= below);
        assert(leads_from(e, content, names, k.start));
        assert(leads_to(t, content, names, k.start));
        assert(path + names =~= inner + below);
    }
}

/// The keys in an expression are exactly those that names lead to from the array that it stands for,
/// through however many arrays.
pub proof fn law_keys_are_those_reached_at_every_depth(
    t: Tree,
    content: Seq<char>,
    prefix: Seq<char>,
    k: TransKey,
)
    ensures
        trans_keys::keys_in(t, content, prefix, Seq::empty()).contains(k) <==> is_reached(
            t,
            content,
            prefix,
            Seq::empty(),
            k,
        ),
{
    if trans_keys::keys_in(t, content, prefix, Seq::empty()).contains(k) {
        lemma_declared_is_reached(t, content, prefix, Seq::empty(), k);
    }
    if is_reached(t, content, prefix, Seq::empty(), k) {
        let names = choose|names: Seq<Seq<char>>|
            #[trigger] leads_to(t, content, names, k.start) && k.key == config_keys::dotted(
                prefix,
                Seq::empty() + names,
            );
        lemma_reached_is_declared(t, content, prefix, Seq::empty(), names, k.start);
    }
}

/// Whether a statement returns.
pub open spec fn is_return(stmt: Tree) -> bool {
    stmt.children.len() == 1 && stmt.children[0].kind == PhpKind::Return
}

/// Whether the first statement that returns gives back `value`.
pub open spec fn first_returns(stmts: Seq<Tree>, value: Tree) -> bool {
    exists|i: int|
        0 <= i < stmts.len() && #[trigger] is_return(stmts[i]) && (forall|j: int|
            0 <= j < i ==> !#[trigger] is_return(stmts[j])) && stmts[i].children[0].children.len()
            == 3 && stmts[i].children[0].children[1].kind == PhpKind::Expression
            && stmts[i].children[0].children[1] == value
}

/// The value that is read is that of the first statement that returns, and of no other.
pub proof fn law_first_return_decides(stmts: Seq<Tree>, value: Tree)
    ensures
        trans_keys::returned_value(stmts) == Some(value) <==> first_returns(stmts, value),
    decreases stmts.len(),
{
    if stmts.len() > 0 {
        let rest = stmts.drop_first();
        law_first_return_decides(rest, value);
        if is_return(stmts[0]) {
            if trans_keys::returned_value(stmts) == Some(value) {
                assert(first_returns(stmts, value));
            }
            if first_returns(stmts, value) {
                let i = choose|i: int|
                    0 <= i < stmts.len() && #[trigger] is_return(stmts[i]) && (forall|j: int|
                        0 <= j < i ==> !#[trigger] is_return(stmts[j]))
                        && stmts[i].children[0].children.len() == 3
                        && stmts[i].children[0].children[1].kind == PhpKind::Expression
                        && stmts[i].children[0].children[1] == value;
                assert(i == 0);
            }
        } else {
            if first_returns(rest, value) {
                let i = choose|i: int|
                    0 <= i < rest.len() && #[trigger] is_return(rest[i]) && (forall|j: int|
                        0 <= j < i ==> !#[trigger] is_return(rest[j]))
                        && rest[i].children[0].children.len() == 3
                        && rest[i].children[0].children[1].kind == PhpKind::Expression
                        && rest[i].children[0].children[1] == value;
                assert(is_return(stmts[i + 1]));
                assert forall|j: int| 0 <= j < i + 1 implies !#[trigger] is_return(stmts[j]) by {
                    if j > 0 {
                        assert(!is_return(rest[j - 1]));
                    }
                }
            }
            if first_returns(stmts, value) {
                let i = choose|i: int|
                    0 <= i < stmts.len() && #[trigger] is_return(stmts[i]) && (forall|j: int|
                        0 <= j < i ==> !#[trigger] is_return(stmts[j]))
                        && stmts[i].children[0].children.len() == 3
                        && stmts[i].children[0].children[1].kind == PhpKind::Expression
                        && stmts[i].children[0].children[1] == value;
                assert(is_return(rest[i - 1]));
                assert forall|j: int| 0 <= j < i - 1 implies !#[trigger] is_return(rest[j]) by {
                    assert(!is_return(stmts[j + 1]));
                }
            }
        }
    }
}

/// Whether an expression is a plain variable.
pub open spec fn is_variable(t: Tree) -> bool {
    &&& t.kind == PhpKind::Expression && t.children.len() == 1
    &&& t.children[0].kind == PhpKind::Variable && t.children[0].children.len() == 1
    &&& t.children[0].children[0].kind == PhpKind::DirectVariable
}

/// Whether an expression is the plain variable that is written as `name`.
pub open spec fn is_variable_named(t: Tree, content: Seq<char>, name: Seq<char>) -> bool {
    is_variable(t) && php_laws::spells(
        content,
        t.children[0].children[0].start,
        t.children[0].children[0].end,
        name,
    )
}

/// Whether a statement assigns `value` to the variable `name`.
pub open spec fn assigns(stmt: Tree, content: Seq<char>, name: Seq<char>, value: Tree) -> bool {
    let assignment = stmt.children[0].children[0].children[0];
    &&& stmt.children.len() == 1 && stmt.children[0].kind == PhpKind::ExpressionStatement
    &&& stmt.children[0].children.len() > 0
    &&& stmt.children[0].children[0].kind == PhpKind::Expression
    &&& stmt.children[0].children[0].children.len() == 1
    &&& assignment.kind == PhpKind::Assignment && assignment.children.len() == 3
    &&& is_variable_named(assignment.children[0], content, name)
    &&& value == assignment.children[2]
}

/// What a statement assigns to a variable is the right side of its assignment.
pub proof fn law_assigned_value_is_right_side(
    stmt: Tree,
    content: Seq<char>,
    name: Seq<char>,
    value: Tree,
)
    ensures
        trans_keys::assigned_value(stmt, content, name) == Some(value) <==> assigns(
            stmt,
            content,
            name,
            value,
        ),
{
}

/// Whether one of the statements assigns to the variable `name` an array in which names lead to a key.
pub open spec fn is_assigned(
    stmts: Seq<Tree>,
    content: Seq<char>,
    prefix: Seq<char>,
    name: Seq<char>,
    k: TransKey,
) -> bool {
    exists|i: int, value: Tree|
        0 <= i < stmts.len() && #[trigger] assigns(stmts[i], content, name, value) && is_reached(
            value,
            content,
            prefix,
            Seq::empty(),
            k,
        )
}

/// The keys that statements assign are those of every assignment to the variable.
proof fn lemma_assigned(
    stmts: Seq<Tree>,
    content: Seq<char>,
    prefix: Seq<char>,
    name: Seq<char>,
    k: TransKey,
)
    ensures
        trans_keys::keys_assigned(stmts, content, prefix, name).contains(k) <==> is_assigned(
            stmts,
            content,
            prefix,
            name,
            k,
        ),
    decreases stmts.len(),
{
    if stmts.len() > 0 {
        let init = stmts.drop_last();
        let n = stmts.len() - 1;
        let before = trans_keys::keys_assigned(init, content, prefix, name);
        lemma_assigned(init, content, prefix, name, k);
        if let Some(value) = trans_keys::assigned_value(stmts[n], content, name) {
            law_assigned_value_is_right_side(stmts[n], content, name, value);
            law_keys_are_those_reached_at_every_depth(value, content, prefix, k);
            text::lemma_contains_concat(
                before,
                trans_keys::keys_in(value, content, prefix, Seq::empty()),
                k,
            );
            assert(assigns(stmts[n], content, name, value));
        }
        if is_assigned(init, content, prefix, name, k) {
            let (i, value) = choose|i: int, value: Tree|
                0 <= i < init.len() && #[trigger] assigns(init[i], content, name, value)
                    && is_reached(value, content, prefix, Seq::empty(), k);
            assert(assigns(stmts[i], content, name, value));
        }
        if is_assigned(stmts, content, prefix, name, k) {
            let (i, value) = choose|i: int, value: Tree|
                0 <= i < stmts.len() && #[trigger] assigns(stmts[i], content, name, value)
                    && is_reached(value, content, prefix, Seq::empty(), k);
            law_assigned_value_is_right_side(stmts[i], content, name, value);
            if i < n {
                assert(assigns(init[i], content, name, value));
            }
        }
    }
}

/// Where a translation file returns an array, it declares exactly the keys that names lead to in it,
/// through however many arrays.
pub proof fn law_returned_array_declares_every_key(
    root: Tree,
    value: Tree,
    content: Seq<char>,
    stem: Seq<char>,
    k: TransKey,
)
    requires
        first_returns(root.children, value),
        !is_variable(value),
    ensures
        trans_keys::declared_keys(root, content, stem).contains(k) <==> is_reached(
            value,
            content,
            stem,
            Seq::empty(),
            k,
        ),
{
    law_first_return_decides(root.children, value);
    law_keys_are_those_reached_at_every_depth(value, content, stem, k);
}

/// Where a translation file returns a variable, it declares exactly the keys that names lead to in
/// what its statements assign to that variable.
pub proof fn law_returned_variable_declares_assigned_keys(
    root: Tree,
    value: Tree,
    name: Seq<char>,
    content: Seq<char>,
    stem: Seq<char>,
    k: TransKey,
)
    requires
        first_returns(root.children, value),
        is_variable_named(value, content, name),
    ensures
        trans_keys::declared_keys(root, content, stem).contains(k) <==> is_assigned(
            root.children,
            content,
            stem,
            name,
            k,
        ),
{
    law_first_return_decides(root.children, value);
    lemma_assigned(root.children, content, stem, name, k);
}

/// The keys of the elements of an array come in the order of the elements.
pub proof fn law_elements_come_in_order(
    es: Seq<Tree>,
    more: Seq<Tree>,
    content: Seq<char>,
    prefix: Seq<char>,
    path: Seq<Seq<char>>,
)
    ensures
        trans_keys::keys_in_elements(es + more, content, prefix, path)
            == trans_keys::keys_in_elements(es, content, prefix, path)
            + trans_keys::keys_in_elements(more, content, prefix, path),
    decreases es.len(),
{
    if es.len() == 0 {
        assert(es + more =~= more);
    } else {
        law_elements_come_in_order(es.drop_first(), more, content, prefix, path);
        assert((es + more).drop_first() =~= es.drop_first() + more);
    }
    assert(trans_keys::keys_in_elements(es + more, content, prefix, path)
        =~= trans_keys::keys_in_elements(es, content, prefix, path) + trans_keys::keys_in_elements(
        more,
        content,
        prefix,
        path,
    ));
}

/// Dotted keys are put together part by part: first a dot and the first part, then the others.
pub proof fn law_dotted_keys_are_joined_with_dots(
    prefix: Seq<char>,
    parts: Seq<Seq<char>>,
    more: Seq<Seq<char>>,
)
    ensures
        config_keys::dotted(prefix, Seq::empty()) == prefix,
        forall|part: Seq<char>| #[trigger]
            config_keys::dotted(prefix, seq![part]) == prefix.push('.') + part,
        config_keys::dotted(prefix, parts + more) == config_keys::dotted(
            config_keys::dotted(prefix, parts),
            more,
        ),
    decreases more.len(),
{
    assert forall|part: Seq<char>| #[trigger]
        config_keys::dotted(prefix, seq![part]) == prefix.push('.') + part by {
        assert(seq![part].drop_last() =~= Seq::empty());
        assert(config_keys::dotted(prefix, seq![part].drop_last()) == prefix);
        assert(seq![part].last() == part);
    }
    if more.len() == 0 {
        assert(parts + more =~= parts);
    } else {
        law_dotted_keys_are_joined_with_dots(prefix, parts, more.drop_last());
        assert((parts + more).drop_last() =~= parts + more.drop_last());
        assert((parts + more).last() == more.last());
    }
}

/// An element with a string key gives that key once, and behind it the keys of its value, below it. Any
/// other element gives nothing.
pub proof fn law_key_comes_before_those_below_it(
    e: Tree,
    content: Seq<char>,
    prefix: Seq<char>,
    path: Seq<Seq<char>>,
)
    ensures
        forall|key: php::TextSpan, value: Tree| #[trigger]
            is_entry(e, content, key, value) ==> trans_keys::keys_in_elements(
                seq![e],
                content,
                prefix,
                path,
            ) == seq![
                TransKey {
                    key: config_keys::dotted(prefix, path.push(key.text)),
                    start: key.start,
                },
            ] + trans_keys::keys_in(value, content, prefix, path.push(key.text)),
        (forall|key: php::TextSpan, value: Tree| !#[trigger] is_entry(e, content, key, value))
            ==> trans_keys::keys_in_elements(seq![e], content, prefix, path).len() == 0,
{
    let found = trans_keys::keys_in_elements(seq![e], content, prefix, path);
    assert(seq![e].drop_first() =~= Seq::empty());
    assert(trans_keys::keys_in_elements(seq![e].drop_first(), content, prefix, path) =~= Seq::empty());
    assert(seq![e][0] == e);
    assert forall|key: php::TextSpan, value: Tree| #[trigger]
        is_entry(e, content, key, value) implies found == seq![
        TransKey { key: config_keys::dotted(prefix, path.push(key.text)), start: key.start },
    ] + trans_keys::keys_in(value, content, prefix, path.push(key.text)) by {
        php_laws::law_string_literal_is_text_between_quotes(
            e.children[0].children[0],
            content,
            key,
        );
        assert(trans_keys::keyed_value(e, content) == Some((key, value)));
        assert(found =~= seq![
            TransKey { key: config_keys::dotted(prefix, path.push(key.text)), start: key.start },
        ] + trans_keys::keys_in(value, content, prefix, path.push(key.text)));
    }
    if let Some((key, value)) = trans_keys::keyed_value(e, content) {
        php_laws::law_string_literal_is_text_between_quotes(
            e.children[0].children[0],
            content,
            key,
        );
        assert(is_entry(e, content, key, value));
    }
}

/// The keys of an array are those of its elements, those of an expression in parentheses are the
/// expression's, and those of a merge are the keys of its arguments in their order.
pub proof fn law_keys_of_arrays_and_merges(
    t: Tree,
    content: Seq<char>,
    prefix: Seq<char>,
    path: Seq<Seq<char>>,
)
    requires
        t.kind == PhpKind::Expression && t.children.len() == 1,
    ensures
        ({
            let inner = t.children[0];
            let keys = trans_keys::keys_in(t, content, prefix, path);
            &&& inner.kind == PhpKind::Array || inner.kind == PhpKind::LegacyArray ==> keys
                == trans_keys::keys_in_elements(inner.children, content, prefix, path)
            &&& inner.kind == PhpKind::Parenthesized && inner.children.len() == 1 ==> keys
                == trans_keys::keys_in(inner.children[0], content, prefix, path)
            &&& merges(t, content) ==> keys == inner.children[0].children[1].children.map_values(
                |a: Tree|
                    if php_laws::passes(a, a.children[0].children.last()) {
                        trans_keys::keys_in(a.children[0].children.last(), content, prefix, path)
                    } else {
                        Seq::<TransKey>::empty()
                    },
            ).flatten()
        }),
{
    if merges(t, content) {
        lemma_merges(t, content);
        lemma_argument_keys(t.children[0].children[0].children[1].children, content, prefix, path);
    }
}

/// The keys of arguments are those of each, one after the other.
proof fn lemma_argument_keys(
    es: Seq<Tree>,
    content: Seq<char>,
    prefix: Seq<char>,
    path: Seq<Seq<char>>,
)
    ensures
        trans_keys::keys_in_arguments(es, content, prefix, path) == es.map_values(
            |a: Tree|
                if php_laws::passes(a, a.children[0].children.last()) {
                    trans_keys::keys_in(a.children[0].children.last(), content, prefix, path)
                } else {
                    Seq::<TransKey>::empty()
                },
        ).flatten(),
    decreases es.len(),
{
    let keys = |a: Tree|
        if php_laws::passes(a, a.children[0].children.last()) {
            trans_keys::keys_in(a.children[0].children.last(), content, prefix, path)
        } else {
            Seq::<TransKey>::empty()
        };
    if es.len() == 0 {
        assert(es.map_values(keys) =~= Seq::empty());
        assert(trans_keys::keys_in_arguments(es, content, prefix, path) =~= Seq::empty());
    } else {
        lemma_argument_keys(es.drop_first(), content, prefix, path);
        assert(es.map_values(keys).drop_first() =~= es.drop_first().map_values(keys));
        assert(es.map_values(keys).first() == keys(es[0]));
        assert(php_calls::argument_value(es[0]) is Some <==> php_laws::passes(
            es[0],
            es[0].children[0].children.last(),
        ));
        assert(trans_keys::keys_in_arguments(es, content, prefix, path) =~= keys(es[0])
            + es.drop_first().map_values(keys).flatten());
    }
}

/// What statements assign to a variable gives its keys in the order of the statements.
pub proof fn law_assigned_keys_come_in_order(
    stmts: Seq<Tree>,
    more: Seq<Tree>,
    content: Seq<char>,
    prefix: Seq<char>,
    name: Seq<char>,
)
    ensures
        trans_keys::keys_assigned(stmts + more, content, prefix, name) == trans_keys::keys_assigned(
            stmts,
            content,
            prefix,
            name,
        ) + trans_keys::keys_assigned(more, content, prefix, name),
    decreases more.len(),
{
    if more.len() == 0 {
        assert(stmts + more =~= stmts);
    } else {
        law_assigned_keys_come_in_order(stmts, more.drop_last(), content, prefix, name);
        assert((stmts + more).drop_last() =~= stmts + more.drop_last());
        assert((stmts + more).last() == more.last());
    }
    assert(trans_keys::keys_assigned(stmts + more, content, prefix, name)
        =~= trans_keys::keys_assigned(stmts, content, prefix, name) + trans_keys::keys_assigned(
        more,
        content,
        prefix,
        name,
    ));
}

/// A statement that assigns to the variable gives the keys of what it assigns, and another gives none.
pub proof fn law_assignment_gives_keys_of_value(
    stmt: Tree,
    content: Seq<char>,
    prefix: Seq<char>,
    name: Seq<char>,
)
    ensures
        forall|value: Tree| #[trigger]
            assigns(stmt, content, name, value) ==> trans_keys::keys_assigned(
                seq![stmt],
                content,
                prefix,
                name,
            ) == trans_keys::keys_in(value, content, prefix, Seq::empty()),
        (forall|value: Tree| !#[trigger] assigns(stmt, content, name, value))
            ==> trans_keys::keys_assigned(seq![stmt], content, prefix, name).len() == 0,
{
    let found = trans_keys::keys_assigned(seq![stmt], content, prefix, name);
    assert(seq![stmt].drop_last() =~= Seq::empty());
    assert(trans_keys::keys_assigned(seq![stmt].drop_last(), content, prefix, name)
        =~= Seq::empty());
    assert(seq![stmt].last() == stmt);
    assert forall|value: Tree| #[trigger] assigns(stmt, content, name, value) implies found
        == trans_keys::keys_in(value, content, prefix, Seq::empty()) by {
        law_assigned_value_is_right_side(stmt, content, name, value);
        assert(found =~= trans_keys::keys_in(value, content, prefix, Seq::empty()));
    }
    if let Some(value) = trans_keys::assigned_value(stmt, content, name) {
        law_assigned_value_is_right_side(stmt, content, name, value);
        assert(assigns(stmt, content, name, value));
    }
}

/// A file gives the keys of what it returns in their order, or those of what is assigned to the variable
/// that it returns. One that returns nothing, or is no PHP source, gives none.
pub proof fn law_file_gives_keys_of_returned_value(
    content: Seq<char>,
    root: Tree,
    value: Tree,
    name: Seq<char>,
    stem: Seq<char>,
)
    ensures
        php::php_tree(content) is None ==> trans_keys::file_keys(content, stem).len() == 0,
        php::php_tree(content) == Some(root) ==> trans_keys::file_keys(content, stem)
            == trans_keys::declared_keys(root, content, stem),
        (forall|v: Tree| !#[trigger] first_returns(root.children, v)) ==> trans_keys::declared_keys(
            root,
            content,
            stem,
        ).len() == 0,
        first_returns(root.children, value) && !is_variable(value) ==> trans_keys::declared_keys(
            root,
            content,
            stem,
        ) == trans_keys::keys_in(value, content, stem, Seq::empty()),
        first_returns(root.children, value) && is_variable_named(value, content, name)
            ==> trans_keys::declared_keys(root, content, stem) == trans_keys::keys_assigned(
            root.children,
            content,
            stem,
            name,
        ),
{
    law_first_return_decides(root.children, value);
    if let Some(v) = trans_keys::returned_value(root.children) {
        law_first_return_decides(root.children, v);
        assert(first_returns(root.children, v));
    }
}

} // verus!
