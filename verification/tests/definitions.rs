use laravel_keys::config_references::config_dir_name;
use laravel_keys::location::{DiskFile, Position};
use laravel_keys::php::parse_tree;
use laravel_keys::php_calls::strip_fqn_prefix;
use laravel_keys::route_names::{
    find_route_name_decl, find_route_name_in_tree, is_php_extension, resolve_route_definition,
    routes_dir_name,
};
use laravel_keys::text::php_file_name;
use laravel_keys::trans_keys::{
    candidate_lang_dirs, collect_trans_declarations, collect_trans_declarations_in,
    find_in_lang_base, find_key_position, order_locales, resolve_trans_definition, LocaleDir,
};
use laravel_keys::urls::uri_of_path;
use laravel_keys::view_names::{
    resolve_view_definition, view_file, view_file_at, view_file_names, views_dir_name, ViewFile,
};

fn disk(uri: &str, content: &str) -> DiskFile {
    DiskFile { uri: Some(uri.to_string()), content: Some(content.to_string()) }
}

#[test]
fn route_names_are_found() {
    let php = "<?php\nRoute::get('/x', fn() => 1)->name('a');\nRoute::get('/y')->Name(value: 'b')->name($n);\n$r?->name('c');\nname('d');\n$r->title('e');";
    let at = |target: &str| {
        find_route_name_decl(php, target, "file:///r.php").map(|l| (l.uri, l.range.start))
    };
    assert_eq!(
        at("a"),
        Some(("file:///r.php".to_string(), Position { line: 1, character: 35 }))
    );
    assert_eq!(
        at("b"),
        Some(("file:///r.php".to_string(), Position { line: 2, character: 31 }))
    );
    for target in ["c", "d", "e", "/x", ""] {
        assert_eq!(at(target), None);
    }
    let root = parse_tree(php).unwrap();
    assert!(find_route_name_in_tree(&root, php, "a", "u").is_some());
}

#[test]
fn routes_are_resolved_in_order() {
    let files = vec![
        disk("file:///1.php", "<?php $r->name('a');"),
        disk("file:///2.php", "<?php $r->name('b'); $r->name('a');"),
    ];
    assert_eq!(resolve_route_definition(&files, "a").unwrap().uri, "file:///1.php");
    assert_eq!(resolve_route_definition(&files, "b").unwrap().uri, "file:///2.php");
    assert!(resolve_route_definition(&files, "c").is_none());
    let stopped = vec![
        DiskFile { uri: Some("file:///0.php".to_string()), content: None },
        disk("file:///1.php", "<?php $r->name('a');"),
    ];
    assert!(resolve_route_definition(&stopped, "a").is_none());
    let stopped = vec![
        DiskFile { uri: None, content: Some(String::new()) },
        disk("file:///1.php", "<?php $r->name('a');"),
    ];
    assert!(resolve_route_definition(&stopped, "a").is_none());
}

#[test]
fn php_extensions() {
    assert!(is_php_extension(Some("php")));
    assert!(!is_php_extension(Some("PHP")));
    assert!(!is_php_extension(None));
}

#[test]
fn qualified_names() {
    assert_eq!(strip_fqn_prefix("\\env"), "env");
    assert_eq!(strip_fqn_prefix("\\\\env"), "\\env");
    assert_eq!(strip_fqn_prefix("env"), "env");
    assert_eq!(strip_fqn_prefix(""), "");
}

#[test]
fn view_files_take_slashes_for_dots() {
    assert_eq!(
        view_file_names("components.button"),
        vec!["components/button.blade.php", "components/button.php"]
    );
    assert_eq!(view_file_names("h\u{e9}"), vec!["h\u{e9}.blade.php", "h\u{e9}.php"]);
}

#[test]
fn blade_templates_come_first() {
    let there = |uri: &str| ViewFile::Present { uri: Some(uri.to_string()) };
    let found = resolve_view_definition(&vec![there("file:///a"), there("file:///b")]).unwrap();
    assert_eq!(found.uri, "file:///a");
    assert_eq!(found.range.start, Position { line: 0, character: 0 });
    let found = resolve_view_definition(&vec![ViewFile::Missing, there("file:///b")]).unwrap();
    assert_eq!(found.uri, "file:///b");
    assert!(resolve_view_definition(&vec![ViewFile::Missing, ViewFile::Missing]).is_none());
    assert!(resolve_view_definition(&vec![ViewFile::Present { uri: None }, there("file:///b")]).is_none());
}

fn keys(php: &str) -> Vec<(String, usize)> {
    collect_trans_declarations(php, "f").into_iter().map(|m| (m.key, m.start)).collect()
}

#[test]
fn translation_keys_are_nested() {
    let php = "<?php return ['a' => 'x', 'b' => array('c' => 1, 2, $k => 3), 'd' => (['e' => 1])];";
    let found = keys(php);
    let names: Vec<&str> = found.iter().map(|k| k.0.as_str()).collect();
    assert_eq!(names, vec!["f.a", "f.b", "f.b.c", "f.d", "f.d.e"]);
    assert_eq!(found[0].1, 15);
    assert_eq!(found[2].1, php.find("c'").unwrap());
    let root = parse_tree(php).unwrap();
    assert_eq!(collect_trans_declarations_in(&root, php, "f").len(), 5);
}

#[test]
fn translation_arrays_are_merged() {
    let php = "<?php return Array_Merge(['a' => 1], array_merge(['b' => 1]), other(['c' => 1]), x: ['d' => 1]);";
    let names: Vec<String> = keys(php).into_iter().map(|k| k.0).collect();
    assert_eq!(names, vec!["f.a", "f.b", "f.d"]);
    assert!(keys("<?php return \\array_merge(['a' => 1]);").is_empty());
}

#[test]
fn translation_arrays_in_variables() {
    let php = "<?php $t = ['a' => 1]; $u = ['no' => 1]; $t = ['b' => ['c' => 1]]; return $t; return ['d' => 1];";
    let names: Vec<String> = keys(php).into_iter().map(|k| k.0).collect();
    assert_eq!(names, vec!["f.a", "f.b", "f.b.c"]);
}

#[test]
fn files_without_translations() {
    assert!(keys("<?php return;").is_empty());
    assert!(keys("<?php return; return ['a' => 1];").is_empty());
    assert!(keys("<?php $x = ['a' => 1];").is_empty());
    assert!(keys("<?php function f() { return ['a' => 1]; }").is_empty());
    assert!(keys("").is_empty());
}

fn locale(name: &str, file: Option<DiskFile>) -> LocaleDir {
    LocaleDir { name: Some(name.to_string()), file }
}

#[test]
fn english_comes_first() {
    let locales = vec![
        locale("de", None),
        locale("en", None),
        LocaleDir { name: None, file: None },
        locale("en", None),
    ];
    let names: Vec<Option<&str>> =
        order_locales(&locales).into_iter().map(|l| l.name.as_deref()).collect();
    assert_eq!(names, vec![Some("en"), Some("en"), Some("de"), None]);
}

#[test]
fn translations_are_found_in_the_preferred_language() {
    let de = disk("file:///de/f.php", "<?php return ['k' => 1];");
    let en = disk("file:///en/f.php", "<?php return [\n'k' => 1, 'k' => 2];");
    let both = vec![locale("de", Some(de.clone())), locale("en", Some(en.clone()))];
    let found = find_in_lang_base(&both, "f", "f.k").unwrap();
    assert_eq!(found.uri, "file:///en/f.php");
    assert_eq!(found.range.start, Position { line: 1, character: 1 });

    let top = find_in_lang_base(&both, "f", "f.none").unwrap();
    assert_eq!(top.uri, "file:///en/f.php");
    assert_eq!(top.range.start, Position { line: 0, character: 0 });

    let other = vec![locale("fr", None), locale("en", None), locale("de", Some(de.clone()))];
    assert_eq!(find_in_lang_base(&other, "f", "f.k").unwrap().uri, "file:///de/f.php");
    assert!(find_in_lang_base(&vec![locale("en", None)], "f", "f.k").is_none());

    let unread = DiskFile { uri: Some("file:///x".to_string()), content: None };
    let stopped = vec![locale("de", Some(unread)), locale("fr", Some(de.clone()))];
    assert!(find_in_lang_base(&stopped, "f", "f.k").is_none());

    assert_eq!(candidate_lang_dirs(), vec!["lang", "resources/lang"]);
    let bases = vec![stopped, both];
    assert_eq!(resolve_trans_definition(&bases, "f.k").unwrap().uri, "file:///en/f.php");
    assert!(resolve_trans_definition(&Vec::new(), "f.k").is_none());
    let plain = resolve_trans_definition(&bases, "f").unwrap();
    assert_eq!(plain.range.start, Position { line: 0, character: 0 });
}

#[test]
fn positions_of_translation_keys() {
    let php = "<?php return ['a' => 1, 'b' => 2];";
    let declared = collect_trans_declarations(php, "f");
    assert_eq!(find_key_position(php, &declared, "f.b"), Position { line: 0, character: 25 });
    assert_eq!(find_key_position(php, &declared, "f.z"), Position { line: 0, character: 0 });
}

#[test]
fn uris_of_paths() {
    assert_eq!(uri_of_path("/p/a b.php"), Some("file:///p/a%20b.php".to_string()));
    assert_eq!(uri_of_path("/p/a-b_1.php"), Some("file:///p/a-b_1.php".to_string()));
    assert_eq!(uri_of_path("//p/./x#y/a.php"), Some("file:///p/x%23y/a.php".to_string()));
    assert_eq!(uri_of_path("p/a.php"), None);
    assert_eq!(uri_of_path(""), None);
    assert_eq!(view_file("/p/v.php", false), ViewFile::Missing);
    let found = resolve_view_definition(&vec![view_file("/p/v.php", true)]).unwrap();
    assert_eq!(found.uri, "file:///p/v.php");
    assert_eq!(view_file("v.php", true), ViewFile::Present { uri: None });
}

#[test]
fn uris_of_paths_below_the_root() {
    for (path, uri) in [
        ("/my project/.env", "file:///my%20project/.env"),
        ("/", "file:///"),
        ("/.", "file:///"),
        ("/a//./b/", "file:///a/b"),
        ("/a/../b", "file:///a/../b"),
        ("/h\u{e9}\u{7f}\n", "file:///h%C3%A9%7F%0A"),
        ("/\"#%<>?`{}", "file:///%22%23%25%3C%3E%3F%60%7B%7D"),
        ("/!$&'()*+,-.:;=@[]^_|~", "file:///!$&'()*+,-.:;=@[]^_|~"),
    ] {
        assert_eq!(uri_of_path(path), Some(uri.to_string()));
    }
    for path in ["", "a", "./a", "..", "a/b c"] {
        assert_eq!(uri_of_path(path), None);
    }
}

#[test]
fn looks_at_templates() {
    let uri = Some("file:///v".to_string());
    assert_eq!(view_file_at(uri.clone(), true), ViewFile::Present { uri: uri.clone() });
    assert_eq!(view_file_at(uri, false), ViewFile::Missing);
    assert_eq!(view_file_at(None, true), ViewFile::Present { uri: None });
}

#[test]
fn names_of_files_and_directories() {
    assert_eq!(config_dir_name(), "config");
    assert_eq!(routes_dir_name(), "routes");
    assert_eq!(views_dir_name(), "resources/views");
    assert_eq!(php_file_name("app"), "app.php");
}
