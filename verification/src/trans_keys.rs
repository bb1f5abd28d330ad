//! Translation keys: `__('file.key')` and the array in `lang/{locale}/file.php` that holds the text.
use vstd::prelude::*;
use vstd::string::*;
use vstd::utf8::*;

use crate::config_keys;
use crate::config_laws;
use crate::location;
use crate::location::{DiskFile, Location, Position};
use crate::php;
use crate::php::{PhpKind, PhpNode};
use crate::php_calls;
use crate::text;

verus! {

/// A declared translation key and the offset of its last part.
#[derive(Debug, Clone, PartialEq, Eq)]
pub struct TransKeyMatch {
    pub key: String,
    pub start: usize,
}

/// A declared translation key with its text as characters.
pub struct TransKey {
    pub key: Seq<char>,
    pub start: int,
}

impl View for TransKeyMatch {
    type V = TransKey;

    open spec fn view(&self) -> TransKey {
        TransKey { key: self.key@, start: self.start as int }
    }
}

/// The views of a list of keys.
pub open spec fn trans_keys(v: Seq<TransKeyMatch>) -> Seq<TransKey> {
    v.map_values(|m: TransKeyMatch| m@)
}

/// Whether the expression is a call of `array_merge`.
pub open spec fn is_merge(t: php::Tree, content: Seq<char>) -> bool {
    match php_calls::call_as(t, PhpKind::FunctionCall, 2) {
        Some(call) => match php_calls::name_of(call.children[0], content) {
            Some(name) => text::same_ignoring_case(encode_utf8(name), "array_merge".spec_bytes())
                && call.children[1].kind == PhpKind::ArgumentList,
            None => false,
        },
        None => false,
    }
}

/// The keys that an expression declares below `path`: those of an array, of what stands in
/// parentheses, and of everything that `array_merge` merges.
pub open spec fn keys_in(
    t: php::Tree,
    content: Seq<char>,
    prefix: Seq<char>,
    path: Seq<Seq<char>>,
) -> Seq<TransKey>
    decreases t,
{
    if t.kind != PhpKind::Expression || t.children.len() != 1 {
        Seq::empty()
    } else if t.children[0].kind == PhpKind::Array || t.children[0].kind == PhpKind::LegacyArray {
        keys_in_elements(t.children[0].children, content, prefix, path)
    } else if t.children[0].kind == PhpKind::Parenthesized && t.children[0].children.len() == 1 {
        keys_in(t.children[0].children[0], content, prefix, path)
    } else if is_merge(t, content) {
        keys_in_arguments(
            t.children[0].children[0].children[1].children,
            content,
            prefix,
            path,
        )
    } else {
        Seq::empty()
    }
}

/// The key and the value of an array's element, where the key is a string literal.
pub open spec fn keyed_value(t: php::Tree, content: Seq<char>) -> Option<
    (php::TextSpan, php::Tree),
> {
    if t.kind == PhpKind::ArrayElement && t.children.len() == 1 && t.children[0].kind
        == PhpKind::KeyValueArrayElement && t.children[0].children.len() == 2 {
        match php::string_literal(t.children[0].children[0], content) {
            Some(key) => Some((key, t.children[0].children[1])),
            None => None,
        }
    } else {
        None
    }
}

/// The keys that the elements of an array declare below `path`: each string key, and behind it the
/// keys of its value.
pub open spec fn keys_in_elements(
    es: Seq<php::Tree>,
    content: Seq<char>,
    prefix: Seq<char>,
    path: Seq<Seq<char>>,
) -> Seq<TransKey>
    decreases es,
{
    if es.len() == 0 {
        Seq::empty()
    } else {
        let rest = keys_in_elements(es.drop_first(), content, prefix, path);
        match keyed_value(es[0], content) {
            Some((key, _)) => {
                let inner = path.push(key.text);
                seq![TransKey { key: config_keys::dotted(prefix, inner), start: key.start }]
                    + keys_in(es[0].children[0].children[1], content, prefix, inner) + rest
            },
            None => rest,
        }
    }
}

/// The keys that the values of arguments declare below `path`.
pub open spec fn keys_in_arguments(
    es: Seq<php::Tree>,
    content: Seq<char>,
    prefix: Seq<char>,
    path: Seq<Seq<char>>,
) -> Seq<TransKey>
    decreases es,
{
    if es.len() == 0 {
        Seq::empty()
    } else {
        let rest = keys_in_arguments(es.drop_first(), content, prefix, path);
        match php_calls::argument_value(es[0]) {
            Some(_) => keys_in(es[0].children[0].children.last(), content, prefix, path) + rest,
            None => rest,
        }
    }
}

/// The value of the first `return` among statements.
pub open spec fn returned_value(stmts: Seq<php::Tree>) -> Option<php::Tree>
    decreases stmts.len(),
{
    if stmts.len() == 0 {
        None
    } else {
        match php::sole(stmts[0], PhpKind::Return) {
            Some(ret) => if ret.children.len() == 3 && ret.children[1].kind
                == PhpKind::Expression {
                Some(ret.children[1])
            } else {
                None
            },
            None => returned_value(stmts.drop_first()),
        }
    }
}

/// The plain variable that the expression is.
pub open spec fn variable_node(t: php::Tree) -> Option<php::Tree> {
    match php::expression_as(t, PhpKind::Variable) {
        Some(variable) => php::sole(variable, PhpKind::DirectVariable),
        None => None,
    }
}

/// What a statement assigns to the variable `name`, if it does so.
pub open spec fn assigned_value(stmt: php::Tree, content: Seq<char>, name: Seq<char>) -> Option<
    php::Tree,
> {
    match php::sole(stmt, PhpKind::ExpressionStatement) {
        Some(s) => if s.children.len() > 0 {
            match php::expression_as(s.children[0], PhpKind::Assignment) {
                Some(a) => if a.children.len() == 3 {
                    match variable_node(a.children[0]) {
                        Some(v) => if php::span_text(content, v.start, v.end) == Some(name) {
                            Some(a.children[2])
                        } else {
                            None
                        },
                        None => None,
                    }
                } else {
                    None
                },
                None => None,
            }
        } else {
            None
        },
        None => None,
    }
}

/// The keys in what statements assign to the variable `name`.
pub open spec fn keys_assigned(
    stmts: Seq<php::Tree>,
    content: Seq<char>,
    prefix: Seq<char>,
    name: Seq<char>,
) -> Seq<TransKey>
    decreases stmts.len(),
{
    if stmts.len() == 0 {
        Seq::empty()
    } else {
        let before = keys_assigned(stmts.drop_last(), content, prefix, name);
        match assigned_value(stmts.last(), content, name) {
            Some(value) => before + keys_in(value, content, prefix, Seq::empty()),
            None => before,
        }
    }
}

/// The keys that a translation file declares: those in the value of its first `return`, or, where it
/// returns a variable, those in all that its statements assign to that variable.
pub open spec fn declared_keys(root: php::Tree, content: Seq<char>, stem: Seq<char>) -> Seq<
    TransKey,
> {
    match returned_value(root.children) {
        Some(value) => match variable_node(value) {
            Some(variable) => match php::span_text(content, variable.start, variable.end) {
                Some(name) => keys_assigned(root.children, content, stem, name),
                None => Seq::empty(),
            },
            None => keys_in(value, content, stem, Seq::empty()),
        },
        None => Seq::empty(),
    }
}

/// The keys that the translation file with the given text declares.
pub open spec fn file_keys(content: Seq<char>, stem: Seq<char>) -> Seq<TransKey> {
    match php::php_tree(content) {
        Some(root) => declared_keys(root, content, stem),
        None => Seq::empty(),
    }
}

/// Where the first of the keys that is `key` stands, or the start of the file if there is none.
pub open spec fn key_position(content: Seq<char>, keys: Seq<TransKey>, key: Seq<char>) -> Position
    decreases keys.len(),
{
    if keys.len() == 0 {
        location::origin()
    } else if keys[0].key == key {
        location::position_at(content, keys[0].start)
    } else {
        key_position(content, keys.drop_first(), key)
    }
}

/// A directory of a language: its name, where it is text, and the translation file in it, if it has
/// the one that is looked for.
#[derive(Debug, Clone, PartialEq, Eq)]
pub struct LocaleDir {
    pub name: Option<String>,
    pub file: Option<DiskFile>,
}

/// Whether a directory is that of English.
pub open spec fn is_english(l: LocaleDir) -> bool {
    l.name matches Some(name) && name@ == "en"@
}

/// The directories with those of English in front; the order is otherwise kept.
pub open spec fn english_first(ls: Seq<LocaleDir>) -> Seq<LocaleDir> {
    ls.filter(|l: LocaleDir| is_english(l)) + ls.filter(|l: LocaleDir| !is_english(l))
}

/// The definition of `key` in the first of the directories that has the file: where the file
/// declares the key, or its start if it does not.
pub open spec fn first_definition(ls: Seq<LocaleDir>, stem: Seq<char>, key: Seq<char>) -> Option<
    location::Place,
>
    decreases ls.len(),
{
    if ls.len() == 0 {
        None
    } else {
        match ls[0].file {
            None => first_definition(ls.drop_first(), stem, key),
            Some(DiskFile { uri: Some(uri), content: Some(content) }) => Some(
                location::point(
                    uri@,
                    key_position(content@, file_keys(content@, stem), key),
                ),
            ),
            Some(_) => None,
        }
    }
}

/// The definition of `key` below one language directory.
pub open spec fn base_definition(ls: Seq<LocaleDir>, stem: Seq<char>, key: Seq<char>) -> Option<
    location::Place,
> {
    first_definition(english_first(ls), stem, key)
}

/// The definition of `key` below the first language directory that has one.
pub open spec fn trans_definition(bases: Seq<Vec<LocaleDir>>, key: Seq<char>) -> Option<
    location::Place,
>
    decreases bases.len(),
{
    if bases.len() == 0 {
        None
    } else {
        match base_definition(bases[0]@, text::key_stem(key), key) {
            Some(place) => Some(place),
            None => trans_definition(bases.drop_first(), key),
        }
    }
}

/// Whether every text among the translation files can be parsed.
pub open spec fn all_addressable(ls: Seq<LocaleDir>) -> bool {
    forall|i: int|
        0 <= i < ls.len() ==> match (#[trigger] ls[i]).file {
            Some(DiskFile { uri: _, content: Some(content) }) => php::is_addressable(content@),
            _ => true,
        }
}

/// Appends the keys that an expression declares below `path`.
fn collect_expr(
    expr: &PhpNode,
    content: &str,
    prefix: &str,
    path: &Vec<String>,
    out: &mut Vec<TransKeyMatch>,
)
    ensures
        trans_keys(final(out)@) == trans_keys(old(out)@) + keys_in(
            expr.tree(),
            content@,
            prefix@,
            text::views(path@),
        ),
    decreases expr,
{
    let ghost held = trans_keys(out@);
    assert(held + Seq::<TransKey>::empty() =~= held);
    if expr.kind != PhpKind::Expression || expr.children.len() != 1 {
        return ;
    }
    let inner = &expr.children[0];
    assert(expr.tree().children[0] == inner.tree());
    if inner.kind == PhpKind::Array || inner.kind == PhpKind::LegacyArray {
        assert(php::trees(inner.children@) =~= inner.tree().children);
        collect_array(&inner.children, content, prefix, path, out);
    } else if inner.kind == PhpKind::Parenthesized && inner.children.len() == 1 {
        assert(inner.tree().children[0] == inner.children@[0].tree());
        collect_expr(&inner.children[0], content, prefix, path, out);
    } else if inner.kind == PhpKind::Call && inner.children.len() == 1 && inner.children[0].kind
        == PhpKind::FunctionCall && inner.children[0].children.len() == 2 {
        let call = &inner.children[0];
        assert(inner.tree().children[0] == call.tree());
        assert(call.tree().children[0] == call.children@[0].tree());
        assert(call.tree().children[1] == call.children@[1].tree());
        if let Some(name) = php_calls::name_text(&call.children[0], content) {
            if text::str_eq_ignoring_case(name, "array_merge") && call.children[1].kind
                == PhpKind::ArgumentList {
                assert(php::trees(call.children@[1].children@)
                    =~= call.children@[1].tree().children);
                collect_arguments(&call.children[1].children, content, prefix, path, out);
            }
        }
    }
}

/// Appends the keys that the elements of an array declare below `path`.
fn collect_array(
    elements: &Vec<PhpNode>,
    content: &str,
    prefix: &str,
    path: &Vec<String>,
    out: &mut Vec<TransKeyMatch>,
)
    ensures
        trans_keys(final(out)@) == trans_keys(old(out)@) + keys_in_elements(
            php::trees(elements@),
            content@,
            prefix@,
            text::views(path@),
        ),
    decreases elements,
{
    let ghost es = php::trees(elements@);
    let ghost p = text::views(path@);
    let ghost held = trans_keys(out@);
    let mut k: usize = 0;
    assert(es.skip(0) =~= es);
    while k < elements.len()
        invariant
            k <= elements@.len(),
            es == php::trees(elements@),
            p == text::views(path@),
            held + keys_in_elements(es, content@, prefix@, p) == trans_keys(out@)
                + keys_in_elements(es.skip(k as int), content@, prefix@, p),
        decreases elements@.len() - k,
    {
        let element = &elements[k];
        let ghost t = element.tree();
        let ghost before = trans_keys(out@);
        let ghost rest = es.skip(k as int);
        let ghost behind = keys_in_elements(es.skip(k + 1), content@, prefix@, p);
        assert(rest[0] == t);
        assert(rest.drop_first() =~= es.skip(k + 1));
        assert(element.children@.len() == 1 ==> t.children[0] == element.children@[0].tree());
        if element.kind == PhpKind::ArrayElement && element.children.len() == 1
            && element.children[0].kind == PhpKind::KeyValueArrayElement
            && element.children[0].children.len() == 2 {
            let pair = &element.children[0];
            assert(pair.tree().children[0] == pair.children@[0].tree());
            assert(pair.tree().children[1] == pair.children@[1].tree());
            if let Some((key, start, _)) = php::extract_string_literal(&pair.children[0], content) {
                let mut full_path = text::clone_texts(path);
                full_path.push(key.to_owned());
                assert(text::views(full_path@) =~= p.push(key@));
                let found = TransKeyMatch {
                    key: config_keys::dotted_key(prefix, &full_path),
                    start,
                };
                let ghost shown = found@;
                out.push(found);
                assert(trans_keys(out@) =~= before.push(shown));
                collect_expr(&pair.children[1], content, prefix, &full_path, out);
                assert(before + keys_in_elements(rest, content@, prefix@, p) =~= trans_keys(out@)
                    + behind);
            }
        }
        assert(before + keys_in_elements(rest, content@, prefix@, p) == trans_keys(out@) + behind);
        k += 1;
    }
    assert(es.skip(k as int).len() == 0);
    assert(held + keys_in_elements(es, content@, prefix@, p) =~= trans_keys(out@));
}

/// Appends the keys that the values of arguments declare below `path`.
fn collect_arguments(
    arguments: &Vec<PhpNode>,
    content: &str,
    prefix: &str,
    path: &Vec<String>,
    out: &mut Vec<TransKeyMatch>,
)
    ensures
        trans_keys(final(out)@) == trans_keys(old(out)@) + keys_in_arguments(
            php::trees(arguments@),
            content@,
            prefix@,
            text::views(path@),
        ),
    decreases arguments,
{
    let ghost es = php::trees(arguments@);
    let ghost p = text::views(path@);
    let ghost held = trans_keys(out@);
    let mut k: usize = 0;
    assert(es.skip(0) =~= es);
    while k < arguments.len()
        invariant
            k <= arguments@.len(),
            es == php::trees(arguments@),
            p == text::views(path@),
            held + keys_in_arguments(es, content@, prefix@, p) == trans_keys(out@)
                + keys_in_arguments(es.skip(k as int), content@, prefix@, p),
        decreases arguments@.len() - k,
    {
        let argument = &arguments[k];
        let ghost t = argument.tree();
        let ghost before = trans_keys(out@);
        let ghost rest = es.skip(k as int);
        let ghost behind = keys_in_arguments(es.skip(k + 1), content@, prefix@, p);
        assert(rest[0] == t);
        assert(rest.drop_first() =~= es.skip(k + 1));
        if argument.kind == PhpKind::Argument && argument.children.len() == 1 {
            let passed = &argument.children[0];
            assert(t.children[0] == passed.tree());
            let count = passed.children.len();
            if (passed.kind == PhpKind::PositionalArgument || passed.kind
                == PhpKind::NamedArgument) && count > 0 {
                assert(passed.tree().children.last() == passed.children@[count - 1].tree());
                collect_expr(&passed.children[count - 1], content, prefix, path, out);
                assert(before + keys_in_arguments(rest, content@, prefix@, p) =~= trans_keys(out@)
                    + behind);
            }
        }
        assert(before + keys_in_arguments(rest, content@, prefix@, p) == trans_keys(out@)
            + behind);
        k += 1;
    }
    assert(es.skip(k as int).len() == 0);
    assert(held + keys_in_arguments(es, content@, prefix@, p) =~= trans_keys(out@));
}

/// The value of the first `return` among statements.
fn find_returned_value<'a>(stmts: &'a Vec<PhpNode>) -> (r: Option<&'a PhpNode>)
    ensures
        php::is_node(r, returned_value(php::trees(stmts@))),
{
    let ghost ts = php::trees(stmts@);
    let mut k: usize = 0;
    assert(ts.skip(0) =~= ts);
    while k < stmts.len()
        invariant
            k <= stmts@.len(),
            ts == php::trees(stmts@),
            returned_value(ts.skip(k as int)) == returned_value(ts),
        decreases stmts@.len() - k,
    {
        assert(ts.skip(k as int)[0] == stmts@[k as int].tree());
        assert(ts.skip(k as int).drop_first() =~= ts.skip(k + 1));
        if let Some(ret) = php::sole_child(&stmts[k], PhpKind::Return) {
            if ret.children.len() == 3 {
                assert(ret.tree().children[1] == ret.children@[1].tree());
                if ret.children[1].kind == PhpKind::Expression {
                    return Some(&ret.children[1]);
                }
            }
            return None;
        }
        k += 1;
    }
    assert(ts.skip(k as int).len() == 0);
    None
}

/// The plain variable that the expression is.
fn find_variable<'a>(node: &'a PhpNode) -> (r: Option<&'a PhpNode>)
    ensures
        php::is_node(r, variable_node(node.tree())),
{
    match php::expression_node(node, PhpKind::Variable) {
        Some(variable) => php::sole_child(variable, PhpKind::DirectVariable),
        None => None,
    }
}

/// What a statement assigns to the variable `name`, if it does so.
fn find_assigned_value<'a>(stmt: &'a PhpNode, content: &str, name: &str) -> (r: Option<&'a PhpNode>)
    ensures
        php::is_node(r, assigned_value(stmt.tree(), content@, name@)),
{
    let statement = match php::sole_child(stmt, PhpKind::ExpressionStatement) {
        Some(statement) => statement,
        None => return None,
    };
    if statement.children.len() == 0 {
        return None;
    }
    assert(statement.tree().children[0] == statement.children@[0].tree());
    let assignment = match php::expression_node(&statement.children[0], PhpKind::Assignment) {
        Some(assignment) => assignment,
        None => return None,
    };
    if assignment.children.len() != 3 {
        return None;
    }
    assert(assignment.tree().children[0] == assignment.children@[0].tree());
    assert(assignment.tree().children[2] == assignment.children@[2].tree());
    match find_variable(&assignment.children[0]) {
        Some(variable) => match php::text_at(content, variable.start, variable.end) {
            Some(found) => if text::str_eq(found, name) {
                Some(&assignment.children[2])
            } else {
                None
            },
            None => None,
        },
        None => None,
    }
}

/// Appends the keys in what statements assign to the variable `name`.
fn collect_assigned(
    stmts: &Vec<PhpNode>,
    content: &str,
    prefix: &str,
    name: &str,
    out: &mut Vec<TransKeyMatch>,
)
    ensures
        trans_keys(final(out)@) == trans_keys(old(out)@) + keys_assigned(
            php::trees(stmts@),
            content@,
            prefix@,
            name@,
        ),
{
    let ghost ts = php::trees(stmts@);
    let ghost held = trans_keys(out@);
    let path: Vec<String> = Vec::new();
    let mut k: usize = 0;
    assert(text::views(path@) =~= Seq::empty());
    assert(ts.take(0) =~= Seq::empty());
    assert(held + Seq::<TransKey>::empty() =~= held);
    while k < stmts.len()
        invariant
            k <= stmts@.len(),
            ts == php::trees(stmts@),
            text::views(path@) == Seq::<Seq<char>>::empty(),
            trans_keys(out@) == held + keys_assigned(ts.take(k as int), content@, prefix@, name@),
        decreases stmts@.len() - k,
    {
        let ghost before = keys_assigned(ts.take(k as int), content@, prefix@, name@);
        assert(ts.take(k + 1).drop_last() =~= ts.take(k as int));
        assert(ts.take(k + 1).last() == stmts@[k as int].tree());
        if let Some(value) = find_assigned_value(&stmts[k], content, name) {
            collect_expr(value, content, prefix, &path, out);
            assert(trans_keys(out@) =~= held + (before + keys_in(
                value.tree(),
                content@,
                prefix@,
                Seq::empty(),
            )));
        }
        k += 1;
    }
    assert(ts.take(k as int) =~= ts);
}

/// The keys that a translation file with the given syntax tree declares, each as
/// `file_stem.nested.key`.
pub fn collect_trans_declarations_in(root: &PhpNode, content: &str, file_stem: &str) -> (r: Vec<
    TransKeyMatch,
>)
    ensures
        trans_keys(r@) == declared_keys(root.tree(), content@, file_stem@),
{
    let mut out: Vec<TransKeyMatch> = Vec::new();
    let path: Vec<String> = Vec::new();
    assert(php::trees(root.children@) =~= root.tree().children);
    assert(text::views(path@) =~= Seq::empty());
    assert(trans_keys(out@) =~= Seq::empty());
    if let Some(value) = find_returned_value(&root.children) {
        match find_variable(value) {
            Some(variable) => {
                if let Some(name) = php::text_at(content, variable.start, variable.end) {
                    collect_assigned(&root.children, content, file_stem, name, &mut out);
                }
            },
            None => {
                collect_expr(value, content, file_stem, &path, &mut out);
            },
        }
    }
    assert(trans_keys(out@) =~= declared_keys(root.tree(), content@, file_stem@));
    out
}

/// The keys that a translation file declares, each as `file_stem.nested.key`.
pub fn collect_trans_declarations(content: &str, file_stem: &str) -> (r: Vec<TransKeyMatch>)
    requires
        php::is_addressable(content@),
    ensures
        trans_keys(r@) == file_keys(content@, file_stem@),
{
    match php::parse_tree(content) {
        Some(root) => collect_trans_declarations_in(&root, content, file_stem),
        None => {
            let r: Vec<TransKeyMatch> = Vec::new();
            assert(trans_keys(r@) =~= Seq::empty());
            r
        },
    }
}

/// Where the first of the declared keys that is `key` stands, or the start of the file if there is
/// none.
pub fn find_key_position(content: &str, declared: &Vec<TransKeyMatch>, key: &str) -> (r: Position)
    ensures
        r == key_position(content@, trans_keys(declared@), key@),
{
    let ghost ks = trans_keys(declared@);
    let mut k: usize = 0;
    assert(ks.skip(0) =~= ks);
    while k < declared.len()
        invariant
            k <= declared@.len(),
            ks == trans_keys(declared@),
            key_position(content@, ks.skip(k as int), key@) == key_position(content@, ks, key@),
        decreases declared@.len() - k,
    {
        assert(ks.skip(k as int)[0] == declared@[k as int]@);
        assert(ks.skip(k as int).drop_first() =~= ks.skip(k + 1));
        if text::str_eq(declared[k].key.as_str(), key) {
            return location::offset_to_position(content, declared[k].start);
        }
        k += 1;
    }
    assert(ks.skip(k as int).len() == 0);
    Position { line: 0, character: 0 }
}

/// The language directories, below the project's root, in the order of their precedence.
pub fn candidate_lang_dirs() -> (r: Vec<String>)
    ensures
        text::views(r@) == seq!["lang"@, "resources/lang"@],
{
    let mut r: Vec<String> = Vec::new();
    r.push("lang".to_owned());
    r.push("resources/lang".to_owned());
    assert(text::views(r@) =~= seq!["lang"@, "resources/lang"@]);
    r
}

/// What references refer to.
pub open spec fn referred(v: Seq<&LocaleDir>) -> Seq<LocaleDir> {
    v.map_values(|l: &LocaleDir| *l)
}

/// Appends those of the directories that are, or are not, those of English.
fn add_locales<'a>(locales: &'a Vec<LocaleDir>, english: bool, out: &mut Vec<&'a LocaleDir>)
    ensures
        referred(final(out)@) == referred(old(out)@) + locales@.filter(
            |l: LocaleDir| is_english(l) == english,
        ),
{
    let ghost wanted = |l: LocaleDir| is_english(l) == english;
    let ghost held = referred(out@);
    let mut k: usize = 0;
    proof {
        reveal(Seq::filter);
        assert(locales@.take(0) =~= Seq::empty());
        assert(held + locales@.take(0).filter(wanted) =~= held);
    }
    while k < locales.len()
        invariant
            k <= locales@.len(),
            wanted == (|l: LocaleDir| is_english(l) == english),
            referred(out@) == held + locales@.take(k as int).filter(wanted),
        decreases locales@.len() - k,
    {
        let ghost before = out@;
        proof {
            reveal(Seq::filter);
            assert(locales@.take(k + 1).drop_last() =~= locales@.take(k as int));
            assert(locales@.take(k + 1).last() == locales@[k as int]);
        }
        let found = match &locales[k].name {
            Some(name) => text::str_eq(name.as_str(), "en"),
            None => false,
        };
        if found == english {
            out.push(&locales[k]);
            assert(referred(out@) =~= referred(before).push(locales@[k as int]));
        }
        assert(referred(out@) =~= held + locales@.take(k + 1).filter(wanted));
        k += 1;
    }
    assert(locales@.take(k as int) =~= locales@);
}

/// The directories with those of English in front; the order is otherwise kept.
pub fn order_locales<'a>(locales: &'a Vec<LocaleDir>) -> (r: Vec<&'a LocaleDir>)
    ensures
        referred(r@) == english_first(locales@),
{
    let mut out: Vec<&'a LocaleDir> = Vec::new();
    add_locales(locales, true, &mut out);
    add_locales(locales, false, &mut out);
    proof {
        let yes = |l: LocaleDir| is_english(l) == true;
        let no = |l: LocaleDir| is_english(l) == false;
        assert(yes =~= (|l: LocaleDir| is_english(l)));
        assert(no =~= (|l: LocaleDir| !is_english(l)));
        assert(referred(out@) =~= english_first(locales@));
    }
    out
}

/// The definition of `full_key` below one language directory, given the directories in it.
///
/// English is preferred; otherwise the first directory that has the file is taken. Where that file
/// does not declare the key, its top is the definition.
pub fn find_in_lang_base(locales: &Vec<LocaleDir>, file_stem: &str, full_key: &str) -> (r: Option<
    Location,
>)
    requires
        all_addressable(locales@),
    ensures
        location::is_place(r, base_definition(locales@, file_stem@, full_key@)),
{
    let ordered = order_locales(locales);
    let ghost ls = referred(ordered@);
    let mut k: usize = 0;
    assert(ls.skip(0) =~= ls);
    proof {
        lemma_english_first_addressable(locales@);
    }
    while k < ordered.len()
        invariant
            k <= ordered@.len(),
            ls == referred(ordered@),
            ls == english_first(locales@),
            all_addressable(ls),
            first_definition(ls.skip(k as int), file_stem@, full_key@) == first_definition(
                ls,
                file_stem@,
                full_key@,
            ),
        decreases ordered@.len() - k,
    {
        assert(ls.skip(k as int)[0] == ls[k as int]);
        assert(ls[k as int] == *ordered@[k as int]);
        assert(ls.skip(k as int).drop_first() =~= ls.skip(k + 1));
        if let Some(file) = &ordered[k].file {
            return match (&file.uri, &file.content) {
                (Some(uri), Some(content)) => {
                    let declared = collect_trans_declarations(content.as_str(), file_stem);
                    let position = find_key_position(content.as_str(), &declared, full_key);
                    Some(location::point_location(uri.clone(), position))
                },
                _ => None,
            };
        }
        k += 1;
    }
    assert(ls.skip(k as int).len() == 0);
    None
}

/// The definition of a translation key, given for each language directory, in the order of their
/// precedence, the directories in it with the file that the key's first part names.
pub fn resolve_trans_definition(bases: &Vec<Vec<LocaleDir>>, key: &str) -> (r: Option<Location>)
    requires
        forall|i: int| 0 <= i < bases@.len() ==> all_addressable((#[trigger] bases@[i])@),
    ensures
        location::is_place(r, trans_definition(bases@, key@)),
{
    let file_stem = text::file_stem_of_key(key);
    let ghost bs = bases@;
    let mut k: usize = 0;
    assert(bs.skip(0) =~= bs);
    while k < bases.len()
        invariant
            k <= bases@.len(),
            bs == bases@,
            file_stem@ == text::key_stem(key@),
            forall|i: int| 0 <= i < bases@.len() ==> all_addressable((#[trigger] bases@[i])@),
            trans_definition(bs.skip(k as int), key@) == trans_definition(bs, key@),
        decreases bases@.len() - k,
    {
        assert(bs.skip(k as int)[0] == bs[k as int]);
        assert(bs.skip(k as int).drop_first() =~= bs.skip(k + 1));
        let found = find_in_lang_base(&bases[k], file_stem.as_str(), key);
        if found.is_some() {
            return found;
        }
        k += 1;
    }
    assert(bs.skip(k as int).len() == 0);
    None
}

/// Putting English in front neither adds a directory nor drops one.
pub proof fn law_english_first_permutes(ls: Seq<LocaleDir>)
    ensures
        english_first(ls).to_multiset() == ls.to_multiset(),
    decreases ls.len(),
{
    broadcast use vstd::seq_lib::group_to_multiset_ensures;

    reveal(Seq::filter);
    let yes = |l: LocaleDir| is_english(l);
    let no = |l: LocaleDir| !is_english(l);
    if ls.len() == 0 {
        assert(english_first(ls) =~= ls);
    } else {
        let init = ls.drop_last();
        law_english_first_permutes(init);
        vstd::seq_lib::lemma_multiset_commutative(init.filter(yes), init.filter(no));
        vstd::seq_lib::lemma_multiset_commutative(ls.filter(yes), ls.filter(no));
        assert(ls =~= init.push(ls.last()));
        assert(english_first(ls).to_multiset() =~= ls.to_multiset());
    }
}

/// Texts that can be parsed still can be after English was put in front.
proof fn lemma_english_first_addressable(ls: Seq<LocaleDir>)
    requires
        all_addressable(ls),
    ensures
        all_addressable(english_first(ls)),
{
    broadcast use vstd::seq_lib::group_to_multiset_ensures;

    law_english_first_permutes(ls);
    let out = english_first(ls);
    assert forall|i: int| 0 <= i < out.len() implies match (#[trigger] out[i]).file {
        Some(DiskFile { uri: _, content: Some(content) }) => php::is_addressable(content@),
        _ => true,
    } by {
        assert(out.contains(out[i]));
        assert(out.to_multiset().count(out[i]) > 0);
        assert(ls.contains(out[i]));
        let j = choose|j: int| 0 <= j < ls.len() && ls[j] == out[i];
        assert(ls[j] == out[i]);
    }
}

/// Whether every key begins with the prefix and a dot.
pub open spec fn all_below(keys: Seq<TransKey>, prefix: Seq<char>) -> bool {
    forall|i: int| 0 <= i < keys.len() ==> prefix.push('.').is_prefix_of((#[trigger] keys[i]).key)
}

/// Keys that begin with the prefix still do when lists of them are put together.
proof fn lemma_all_below_concat(a: Seq<TransKey>, b: Seq<TransKey>, prefix: Seq<char>)
    requires
        all_below(a, prefix),
        all_below(b, prefix),
    ensures
        all_below(a + b, prefix),
{
    assert forall|i: int| 0 <= i < (a + b).len() implies prefix.push('.').is_prefix_of(
        (#[trigger] (a + b)[i]).key,
    ) by {
        if i < a.len() {
            assert((a + b)[i] == a[i]);
        } else {
            assert((a + b)[i] == b[i - a.len()]);
        }
    }
}

/// The keys in an expression begin with the prefix.
proof fn lemma_keys_in(
    t: php::Tree,
    content: Seq<char>,
    prefix: Seq<char>,
    path: Seq<Seq<char>>,
)
    ensures
        all_below(keys_in(t, content, prefix, path), prefix),
    decreases t,
{
    if t.kind != PhpKind::Expression || t.children.len() != 1 {
    } else if t.children[0].kind == PhpKind::Array || t.children[0].kind == PhpKind::LegacyArray {
        lemma_keys_in_elements(t.children[0].children, content, prefix, path);
    } else if t.children[0].kind == PhpKind::Parenthesized && t.children[0].children.len() == 1 {
        lemma_keys_in(t.children[0].children[0], content, prefix, path);
    } else if is_merge(t, content) {
        lemma_keys_in_arguments(
            t.children[0].children[0].children[1].children,
            content,
            prefix,
            path,
        );
    }
}

/// The keys in the elements of an array begin with the prefix.
proof fn lemma_keys_in_elements(
    es: Seq<php::Tree>,
    content: Seq<char>,
    prefix: Seq<char>,
    path: Seq<Seq<char>>,
)
    ensures
        all_below(keys_in_elements(es, content, prefix, path), prefix),
    decreases es,
{
    if es.len() > 0 {
        let rest = keys_in_elements(es.drop_first(), content, prefix, path);
        lemma_keys_in_elements(es.drop_first(), content, prefix, path);
        if let Some((key, _)) = keyed_value(es[0], content) {
            let inner = path.push(key.text);
            let own = seq![TransKey { key: config_keys::dotted(prefix, inner), start: key.start }];
            let below = keys_in(es[0].children[0].children[1], content, prefix, inner);
            lemma_keys_in(es[0].children[0].children[1], content, prefix, inner);
            config_laws::lemma_dotted(prefix, inner);
            assert(all_below(own, prefix));
            lemma_all_below_concat(own, below, prefix);
            lemma_all_below_concat(own + below, rest, prefix);
        }
    }
}

/// The keys in the values of arguments begin with the prefix.
proof fn lemma_keys_in_arguments(
    es: Seq<php::Tree>,
    content: Seq<char>,
    prefix: Seq<char>,
    path: Seq<Seq<char>>,
)
    ensures
        all_below(keys_in_arguments(es, content, prefix, path), prefix),
    decreases es,
{
    if es.len() > 0 {
        let rest = keys_in_arguments(es.drop_first(), content, prefix, path);
        lemma_keys_in_arguments(es.drop_first(), content, prefix, path);
        if php_calls::argument_value(es[0]) is Some {
            let below = keys_in(es[0].children[0].children.last(), content, prefix, path);
            lemma_keys_in(es[0].children[0].children.last(), content, prefix, path);
            lemma_all_below_concat(below, rest, prefix);
        }
    }
}

/// The keys in what statements assign begin with the prefix.
proof fn lemma_keys_assigned(
    stmts: Seq<php::Tree>,
    content: Seq<char>,
    prefix: Seq<char>,
    name: Seq<char>,
)
    ensures
        all_below(keys_assigned(stmts, content, prefix, name), prefix),
    decreases stmts.len(),
{
    if stmts.len() > 0 {
        let before = keys_assigned(stmts.drop_last(), content, prefix, name);
        lemma_keys_assigned(stmts.drop_last(), content, prefix, name);
        if let Some(value) = assigned_value(stmts.last(), content, name) {
            lemma_keys_in(value, content, prefix, Seq::empty());
            lemma_all_below_concat(before, keys_in(value, content, prefix, Seq::empty()), prefix);
        }
    }
}

/// Every key that a translation file declares begins with the file's name and a dot.
pub proof fn law_keys_begin_with_file_stem(root: php::Tree, content: Seq<char>, stem: Seq<char>)
    ensures
        all_below(declared_keys(root, content, stem), stem),
{
    if let Some(value) = returned_value(root.children) {
        match variable_node(value) {
            Some(variable) => {
                if let Some(name) = php::span_text(content, variable.start, variable.end) {
                    lemma_keys_assigned(root.children, content, stem, name);
                }
            },
            None => {
                lemma_keys_in(value, content, stem, Seq::empty());
            },
        }
    }
}

/// Directories without the file do not matter, nor do those behind one that has it.
proof fn lemma_first_with_file(ls: Seq<LocaleDir>, i: int, stem: Seq<char>, key: Seq<char>)
    requires
        0 <= i < ls.len(),
        ls[i].file is Some,
        forall|j: int| 0 <= j < i ==> (#[trigger] ls[j]).file is None,
    ensures
        first_definition(ls, stem, key) == first_definition(seq![ls[i]], stem, key),
    decreases i,
{
    if i > 0 {
        let rest = ls.drop_first();
        assert(ls[0].file is None);
        assert forall|j: int| 0 <= j < i - 1 implies (#[trigger] rest[j]).file is None by {
            assert(rest[j] == ls[j + 1]);
        }
        lemma_first_with_file(rest, i - 1, stem, key);
        assert(rest[i - 1] == ls[i]);
    }
}

/// Where a directory of English has the file, that one decides, wherever it stands.
pub proof fn law_english_is_preferred(ls: Seq<LocaleDir>, i: int, stem: Seq<char>, key: Seq<char>)
    requires
        0 <= i < ls.len(),
        is_english(ls[i]),
        ls[i].file is Some,
        forall|j: int|
            0 <= j < i ==> !(is_english(#[trigger] ls[j]) && ls[j].file is Some),
    ensures
        base_definition(ls, stem, key) == first_definition(seq![ls[i]], stem, key),
{
    let yes = |l: LocaleDir| is_english(l);
    let no = |l: LocaleDir| !is_english(l);
    let (head, tail) = (ls.take(i), ls.skip(i + 1));
    assert(ls =~= head + (seq![ls[i]] + tail));
    Seq::filter_distributes_over_add(head, seq![ls[i]] + tail, yes);
    text::lemma_filter_first(ls[i], tail, yes);
    let kept = head.filter(yes);
    let n = kept.len() as int;
    let all = english_first(ls);
    assert(all =~= kept + (seq![ls[i]] + tail.filter(yes) + ls.filter(no)));
    assert forall|j: int| 0 <= j < n implies (#[trigger] all[j]).file is None by {
        assert(all[j] == kept[j]);
        head.lemma_filter_pred(yes, j);
        text::lemma_filtered_from(head, yes, j);
        let k = choose|k: int| 0 <= k < head.len() && head[k] == kept[j];
        assert(head[k] == ls[k]);
    }
    assert(all[n] == ls[i]);
    lemma_first_with_file(all, n, stem, key);
}

/// Where no directory of English has the file, the first that has it decides.
pub proof fn law_first_locale_otherwise(
    ls: Seq<LocaleDir>,
    i: int,
    stem: Seq<char>,
    key: Seq<char>,
)
    requires
        0 <= i < ls.len(),
        ls[i].file is Some,
        forall|j: int| 0 <= j < i ==> (#[trigger] ls[j]).file is None,
        forall|j: int|
            0 <= j < ls.len() ==> !(is_english(#[trigger] ls[j]) && ls[j].file is Some),
    ensures
        base_definition(ls, stem, key) == first_definition(seq![ls[i]], stem, key),
{
    let yes = |l: LocaleDir| is_english(l);
    let no = |l: LocaleDir| !is_english(l);
    let (head, tail) = (ls.take(i), ls.skip(i + 1));
    assert(ls =~= head + (seq![ls[i]] + tail));
    Seq::filter_distributes_over_add(head, seq![ls[i]] + tail, no);
    text::lemma_filter_first(ls[i], tail, no);
    assert(!is_english(ls[i]));
    let english = ls.filter(yes);
    let kept = head.filter(no);
    let n = (english.len() + kept.len()) as int;
    let all = english_first(ls);
    assert(all =~= english + kept + (seq![ls[i]] + tail.filter(no)));
    assert forall|j: int| 0 <= j < n implies (#[trigger] all[j]).file is None by {
        if j < english.len() {
            assert(all[j] == english[j]);
            ls.lemma_filter_pred(yes, j);
            text::lemma_filtered_from(ls, yes, j);
            let k = choose|k: int| 0 <= k < ls.len() && ls[k] == english[j];
            assert(is_english(ls[k]));
        } else {
            let m = j - english.len();
            assert(all[j] == kept[m]);
            text::lemma_filtered_from(head, no, m);
            let k = choose|k: int| 0 <= k < head.len() && head[k] == kept[m];
            assert(head[k] == ls[k]);
        }
    }
    assert(all[n] == ls[i]);
    lemma_first_with_file(all, n, stem, key);
}

/// Whether the key is found among declared keys or not, there is a place to go to: the key's place
/// if it is declared, and the top of the file if it is not.
pub proof fn law_undeclared_key_leads_to_top(
    content: Seq<char>,
    keys: Seq<TransKey>,
    key: Seq<char>,
)
    ensures
        (forall|i: int| 0 <= i < keys.len() ==> (#[trigger] keys[i]).key != key) ==> key_position(
            content,
            keys,
            key,
        ) == location::origin(),
        forall|i: int|
            0 <= i < keys.len() && (#[trigger] keys[i]).key == key && (forall|j: int|
                0 <= j < i ==> (#[trigger] keys[j]).key != key) ==> key_position(content, keys, key)
                == location::position_at(content, keys[i].start),
    decreases keys.len(),
{
    if keys.len() > 0 && keys[0].key != key {
        let rest = keys.drop_first();
        law_undeclared_key_leads_to_top(content, rest, key);
        if forall|i: int| 0 <= i < keys.len() ==> (#[trigger] keys[i]).key != key {
            assert forall|i: int| 0 <= i < rest.len() implies (#[trigger] rest[i]).key != key by {
                assert(rest[i] == keys[i + 1]);
            }
        }
        assert forall|i: int|
            0 <= i < keys.len() && (#[trigger] keys[i]).key == key && (forall|j: int|
                0 <= j < i ==> (#[trigger] keys[j]).key != key) implies key_position(
            content,
            keys,
            key,
        ) == location::position_at(content, keys[i].start) by {
            assert(rest[i - 1] == keys[i]);
            assert forall|j: int| 0 <= j < i - 1 implies (#[trigger] rest[j]).key != key by {
                assert(rest[j] == keys[j + 1]);
            }
        }
    }
}

} // verus!
