use std::ops::ControlFlow;

use laravel_keys::eloquent::{
    extends_eloquent_builder, extends_eloquent_model, has_ancestor, is_eloquent_model, ClassEntry,
    ClassInfo,
};
use laravel_keys::naming::{camel_to_snake, legacy_accessor_method_name, snake_to_studly};
use laravel_keys::php::{
    build_tree, collect_strings, extract_string_literal, has, kind_from_name, list_expressions,
    parse_tree, walk_all_php_expressions, NodeRecord, PhpKind,
};

fn make_class(name: &str) -> ClassInfo {
    ClassInfo {
        name: name.to_string(),
        fqn: name.to_string(),
        parent_class: None,
        methods: Vec::new(),
    }
}

fn entry(name: &str, class: ClassInfo) -> ClassEntry {
    ClassEntry { name: name.to_string(), class }
}

#[test]
fn recognises_fqn() {
    assert!(is_eloquent_model("Illuminate\\Database\\Eloquent\\Model"));
}

#[test]
fn rejects_unrelated_class() {
    assert!(!is_eloquent_model("App\\Models\\User"));
}

#[test]
fn direct_child_of_model() {
    let mut user = make_class("App\\Models\\User");
    user.parent_class = Some("Illuminate\\Database\\Eloquent\\Model".to_string());

    let model = make_class("Illuminate\\Database\\Eloquent\\Model");
    let table = vec![entry("Illuminate\\Database\\Eloquent\\Model", model)];

    assert!(extends_eloquent_model(&user, &table));
}

#[test]
fn indirect_child_of_model() {
    let mut user = make_class("App\\Models\\Admin");
    user.parent_class = Some("App\\Models\\User".to_string());

    let mut base = make_class("App\\Models\\User");
    base.parent_class = Some("Illuminate\\Database\\Eloquent\\Model".to_string());

    let model = make_class("Illuminate\\Database\\Eloquent\\Model");

    let table = vec![
        entry("App\\Models\\User", base),
        entry("Illuminate\\Database\\Eloquent\\Model", model),
    ];

    assert!(extends_eloquent_model(&user, &table));
}

#[test]
fn not_a_model() {
    let service = make_class("App\\Services\\UserService");
    assert!(!extends_eloquent_model(&service, &Vec::new()));
}

#[test]
fn the_base_class_is_a_model() {
    let model = make_class("Illuminate\\Database\\Eloquent\\Model");
    assert!(extends_eloquent_model(&model, &Vec::new()));
    assert!(!extends_eloquent_builder(&model, &Vec::new()));
}

#[test]
fn classes_that_descend_from_themselves_end_the_search() {
    let mut a = make_class("A");
    a.parent_class = Some("B".to_string());
    let mut b = make_class("B");
    b.parent_class = Some("A".to_string());
    let mut start = make_class("C");
    start.parent_class = Some("A".to_string());
    let table = vec![entry("A", a), entry("B", b)];
    assert!(has_ancestor(&start, &table, "A"));
    assert!(has_ancestor(&start, &table, "B"));
    assert!(!has_ancestor(&start, &table, "C"));
    assert!(!extends_eloquent_model(&start, &table));
}

#[test]
fn custom_builder_descends_from_builder() {
    let mut custom = make_class("App\\UserBuilder");
    custom.parent_class = Some("Illuminate\\Database\\Eloquent\\Builder".to_string());
    assert!(extends_eloquent_builder(&custom, &Vec::new()));
}

#[test]
fn camel_to_snake_simple() {
    assert_eq!(camel_to_snake("FullName"), "full_name");
}

#[test]
fn camel_to_snake_single_word() {
    assert_eq!(camel_to_snake("Name"), "name");
}

#[test]
fn camel_to_snake_already_lower() {
    assert_eq!(camel_to_snake("name"), "name");
}

#[test]
fn camel_to_snake_camel_case() {
    assert_eq!(camel_to_snake("firstName"), "first_name");
}

#[test]
fn camel_to_snake_multiple_words() {
    assert_eq!(camel_to_snake("isAdminUser"), "is_admin_user");
}

#[test]
fn camel_to_snake_with_digit() {
    assert_eq!(camel_to_snake("item2Name"), "item2_name");
}

#[test]
fn camel_to_snake_acronym() {
    assert_eq!(camel_to_snake("URLName"), "url_name");
}


#[test]
fn legacy_accessor_prop_name_simple() {
    assert_eq!(legacy_accessor_method_name("name"), "getNameAttribute");
}

#[test]
fn legacy_accessor_prop_name_multi_word() {
    assert_eq!(
        legacy_accessor_method_name("display_name"),
        "getDisplayNameAttribute"
    );
}

#[test]
fn legacy_accessor_prop_name_three_words() {
    assert_eq!(
        legacy_accessor_method_name("full_legal_name"),
        "getFullLegalNameAttribute"
    );
}

#[test]
fn attribute_names_come_back_from_accessor_names() {
    assert_eq!(snake_to_studly("full_legal_name"), "FullLegalName");
    for name in ["name", "display_name", "item2_name", "a_bc", "ab_c"] {
        assert_eq!(camel_to_snake(&snake_to_studly(name)), name);
    }
    assert_eq!(snake_to_studly("a_b"), "AB");
    assert_eq!(camel_to_snake("AB"), "ab");
}

#[test]
fn case_conversion_at_the_edges() {
    assert_eq!(camel_to_snake(""), "");
    assert_eq!(camel_to_snake("ABC"), "abc");
    assert_eq!(camel_to_snake("userID"), "user_id");
    assert_eq!(legacy_accessor_method_name(""), "getAttribute");
    assert_eq!(legacy_accessor_method_name("_x__y"), "getXYAttribute");
}

// Statement branches

#[test]
fn walker_return_stmt() {
    assert!(has("<?php return 'ret';", "ret"));
}

#[test]
fn walker_echo_stmt() {
    let php = "<?php echo 'ea', 'eb';";
    assert!(has(php, "ea"));
    assert!(has(php, "eb"));
}

#[test]
fn walker_namespace_stmt() {
    assert!(has("<?php namespace Foo; return 'ns';", "ns"));
}

#[test]
fn walker_block_stmt() {
    assert!(has("<?php { return 'blk'; }", "blk"));
}

#[test]
fn walker_if_stmt() {
    let php = "<?php if (true) { return 'th'; } elseif (false) { return 'ei'; } else { return 'el'; }";
    assert!(has(php, "th"));
    assert!(has(php, "ei"));
    assert!(has(php, "el"));
}

#[test]
fn walker_while_stmt() {
    assert!(has("<?php while (true) { return 'wb'; }", "wb"));
}

#[test]
fn walker_do_while_stmt() {
    assert!(has("<?php do { return 'dw'; } while (false);", "dw"));
}

#[test]
fn walker_for_stmt() {
    let php = "<?php for (foo('fi'); foo('fc'); foo('fu')) { foo('fb'); }";
    assert!(has(php, "fi"));
    assert!(has(php, "fc"));
    assert!(has(php, "fu"));
    assert!(has(php, "fb"));
}

#[test]
fn walker_foreach_stmt() {
    let php = "<?php foreach (['item'] as $v) { return 'fv'; }";
    assert!(has(php, "item"));
    assert!(has(php, "fv"));
}

#[test]
fn walker_try_catch_finally() {
    let php = "<?php try { return 'tv'; } catch (\\Exception $e) { return 'cv'; } finally { return 'fv'; }";
    assert!(has(php, "tv"));
    assert!(has(php, "cv"));
    assert!(has(php, "fv"));
}

#[test]
fn walker_switch_stmt() {
    let php = "<?php switch ('sw') { case 'cs': return 'rv'; default: return 'dv'; }";
    assert!(has(php, "sw"));
    assert!(has(php, "cs"));
    assert!(has(php, "rv"));
    assert!(has(php, "dv"));
}

#[test]
fn walker_function_body() {
    assert!(has("<?php function foo() { return 'fn'; }", "fn"));
}

#[test]
fn walker_class_method_body() {
    assert!(has(
        "<?php class C { function m() { return 'cm'; } }",
        "cm"
    ));
}

#[test]
fn walker_class_property() {
    assert!(has("<?php class C { public $x = 'pv'; }", "pv"));
}

#[test]
fn walker_class_constant() {
    assert!(has("<?php class C { const K = 'ck'; }", "ck"));
}

#[test]
fn walker_interface_constant() {
    assert!(has("<?php interface I { const K = 'ik'; }", "ik"));
}

#[test]
fn walker_trait_method_body() {
    assert!(has(
        "<?php trait T { function m() { return 'tm'; } }",
        "tm"
    ));
}

#[test]
fn walker_enum_backed_case() {
    assert!(has("<?php enum S: string { case A = 'ev'; }", "ev"));
}

#[test]
fn walker_enum_constant() {
    assert!(has("<?php enum S { const K = 'ec'; }", "ec"));
}

#[test]
fn walker_static_var() {
    assert!(has("<?php function f() { static $x = 'sv'; }", "sv"));
}

#[test]
fn walker_unset_stmt() {
    // unset args are variable expressions; verify the walker reaches code after it
    assert!(has("<?php unset($x); return 'au';", "au"));
}

// Expression branches

#[test]
fn walker_method_call() {
    assert!(has("<?php $o->m('ma');", "ma"));
}

#[test]
fn walker_null_safe_method_call() {
    assert!(has("<?php $o?->m('na');", "na"));
}

#[test]
fn walker_binary_expr() {
    let php = "<?php return 'lhs' . 'rhs';";
    assert!(has(php, "lhs"));
    assert!(has(php, "rhs"));
}

#[test]
fn walker_unary_prefix() {
    assert!(has("<?php $x = !true; return 'up';", "up"));
}

#[test]
fn walker_unary_postfix() {
    assert!(has("<?php $i = 0; $i++; return 'upo';", "upo"));
}

#[test]
fn walker_parenthesized() {
    assert!(has("<?php return ('pv');", "pv"));
}

#[test]
fn walker_assignment() {
    assert!(has("<?php $x = 'av';", "av"));
}

#[test]
fn walker_conditional_ternary() {
    let php = "<?php return true ? 'th' : 'el';";
    assert!(has(php, "th"));
    assert!(has(php, "el"));
}

#[test]
fn walker_conditional_elvis() {
    let php = "<?php return 'cv' ?: 'ev';";
    assert!(has(php, "cv"));
    assert!(has(php, "ev"));
}

#[test]
fn walker_array_literal() {
    let php = "<?php return ['v1', 'k' => 'v2'];";
    assert!(has(php, "v1"));
    assert!(has(php, "k"));
    assert!(has(php, "v2"));
}

#[test]
fn walker_legacy_array() {
    assert!(has("<?php return array('la1', 'la2');", "la1"));
}

#[test]
fn walker_variadic_array_element() {
    assert!(has("<?php return [...$a, 'vae'];", "vae"));
}

#[test]
fn walker_array_access() {
    assert!(has("<?php return $a['ki'];", "ki"));
}

#[test]
fn walker_closure_body() {
    assert!(has("<?php $f = function() { return 'clv'; };", "clv"));
}

#[test]
fn walker_arrow_function() {
    assert!(has("<?php $f = fn() => 'afv';", "afv"));
}

#[test]
fn walker_match_expr() {
    let php = "<?php return match ('ms') { 'ma' => 'mv', default => 'md' };";
    assert!(has(php, "ms"));
    assert!(has(php, "ma"));
    assert!(has(php, "mv"));
    assert!(has(php, "md"));
}

#[test]
fn walker_throw_expr() {
    assert!(has("<?php throw new \\Exception('te');", "te"));
}

#[test]
fn walker_yield_value() {
    assert!(has("<?php function g() { yield 'yv'; }", "yv"));
}

#[test]
fn walker_yield_pair() {
    let php = "<?php function g() { yield 'yk' => 'yp'; }";
    assert!(has(php, "yk"));
    assert!(has(php, "yp"));
}

#[test]
fn walker_yield_from() {
    assert!(has("<?php function g() { yield from ['yf']; }", "yf"));
}

#[test]
fn walker_clone() {
    assert!(has("<?php $b = clone $a; return 'after';", "after"));
}

#[test]
fn walker_instantiation_args() {
    assert!(has("<?php new Foo('ca');", "ca"));
}

// Early exit

#[test]
fn walker_early_exit_stops_after_break() {
    let php = "<?php foo('a'); foo('b'); foo('c');";
    let visited: Vec<String> =
        walk_all_php_expressions(php, Vec::new(), |mut visited: Vec<String>, expr| {
            if let Some((s, _, _)) = extract_string_literal(expr, php) {
                visited.push(s.to_string());
                return ControlFlow::Break(visited);
            }
            ControlFlow::Continue(visited)
        });
    assert_eq!(visited, vec!["a".to_string()]);
}

#[test]
fn walker_goes_on_without_a_break() {
    let php = "<?php foo('a'); foo('b', bar('c')); foo('d');";
    let count: usize = walk_all_php_expressions(php, 0, |count: usize, expr| {
        let found = extract_string_literal(expr, php).is_some();
        ControlFlow::Continue(if found { count + 1 } else { count })
    });
    assert_eq!(count, 4);
    assert_eq!(collect_strings(php), vec!["a", "b", "c", "d"]);
}

#[test]
fn string_literals_are_given_as_they_are_written() {
    let php = "<?php foo(\"x\\n\", '', 'h\u{e9}');";
    assert_eq!(collect_strings(php), vec!["x\\n", "", "h\u{e9}"]);
    assert!(!has(php, "y"));
    let root = parse_tree(php).unwrap();
    let spans: Vec<(usize, usize)> = list_expressions(&root)
        .into_iter()
        .filter_map(|e| extract_string_literal(e, php))
        .map(|(_, start, end)| (start, end))
        .collect();
    assert_eq!(spans, vec![(11, 14), (18, 18), (22, 25)]);
}

#[test]
fn outer_expressions_come_first() {
    let php = "<?php foo(bar());";
    let root = parse_tree(php).unwrap();
    assert_eq!(root.kind, PhpKind::Program);
    let texts: Vec<&str> =
        list_expressions(&root).into_iter().map(|e| &php[e.start..e.end]).collect();
    assert_eq!(texts, vec!["foo(bar())", "foo", "bar()", "bar"]);
}

fn record(kind: &str, arity: usize) -> NodeRecord {
    NodeRecord { kind: kind.to_string(), start: 0, end: 0, arity }
}

#[test]
fn listed_nodes_are_put_together() {
    let root = build_tree(&vec![
        record("Literal", 0),
        record("Expression", 1),
        record("Keyword", 0),
        record("Program", 2),
    ])
    .unwrap();
    assert_eq!(root.kind, PhpKind::Program);
    assert_eq!(root.children.len(), 2);
    assert_eq!(root.children[0].kind, PhpKind::Expression);
    assert_eq!(root.children[0].children[0].kind, PhpKind::Literal);
    assert_eq!(root.children[1].kind, PhpKind::Other);
}

#[test]
fn lists_that_are_no_tree_are_refused() {
    assert!(build_tree(&Vec::new()).is_none());
    assert!(build_tree(&vec![record("Program", 1)]).is_none());
    assert!(build_tree(&vec![record("Literal", 0), record("Literal", 0)]).is_none());
}

#[test]
fn kinds_are_known_by_name() {
    assert_eq!(kind_from_name("MethodCall"), PhpKind::MethodCall);
    assert_eq!(kind_from_name("LiteralString"), PhpKind::LiteralString);
    assert_eq!(kind_from_name("methodcall"), PhpKind::Other);
}
