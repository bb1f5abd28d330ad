use laravel_keys::config_keys::{
    collect_laravel_config_declarations, config_key_at_cursor, dotted_key,
    find_laravel_config_usage_at_cursor, is_array_call_before, is_laravel_config_call_prefix,
    is_php_callee_char, laravel_config_prefix_from_uri, scan_laravel_config_usages,
    skip_ws_and_comments,
};
use laravel_keys::config_references::{
    config_target_at_cursor, find_all_config_references, find_config_references,
    resolve_config_definition,
};
use laravel_keys::location::{
    offset_to_position, position_to_offset, DiskFile, Location, Position, SourceFile,
};

#[test]
fn config_prefix_from_uri_normal() {
    assert_eq!(
        laravel_config_prefix_from_uri("file:///project/config/app.php"),
        Some("app".to_string())
    );
}

#[test]
fn config_prefix_from_uri_root_level() {
    assert_eq!(
        laravel_config_prefix_from_uri("file:///config/app.php"),
        Some("app".to_string())
    );
}

#[test]
fn config_prefix_from_uri_not_in_config_dir() {
    assert_eq!(
        laravel_config_prefix_from_uri("file:///project/src/Service.php"),
        None
    );
}

#[test]
fn config_prefix_from_uri_file_named_config() {
    assert_eq!(
        laravel_config_prefix_from_uri("file:///project/config.php"),
        None
    );
}

#[test]
fn scan_usages_ignores_comment_matches() {
    let php = [
        "<?php\n",
        "// config('app.name')\n",
        "/* config('app.timezone') */\n",
        "$x = config('app.env');\n",
    ]
    .concat();
    let found = scan_laravel_config_usages(&php, None);
    assert_eq!(found.len(), 1);
    assert_eq!(found[0].key, "app.env");
}

#[test]
fn usage_at_cursor_ignores_non_call_string_literals() {
    let php = [
        "<?php\n",
        "$x = 'app.name';\n",
        "$y = config('app.name');\n",
    ]
    .concat();
    let bare = php.find("app.name';").expect("bare string");
    assert!(find_laravel_config_usage_at_cursor(&php, bare).is_none());

    let call = php.rfind("app.name").expect("config call");
    let hit = find_laravel_config_usage_at_cursor(&php, call).expect("should hit");
    assert_eq!(hit.key, "app.name");
}

#[test]
fn target_key_filters_usages() {
    let php = "<?php config('a.b'); Config::get('c.d'); \\Config::GET( 'a.b' );";
    let all = scan_laravel_config_usages(php, None);
    let keys: Vec<&str> = all.iter().map(|m| m.key.as_str()).collect();
    assert_eq!(keys, vec!["a.b", "c.d", "a.b"]);
    let some = scan_laravel_config_usages(php, Some("a.b"));
    assert_eq!(some.len(), 2);
    assert_eq!(some[0], all[0]);
    assert_eq!(some[1], all[2]);
    assert!(scan_laravel_config_usages(php, Some("a")).is_empty());
}

#[test]
fn usages_spell_their_keys_in_order() {
    let php = "<?php // config('no')\n$x = config(\"h\u{e9}.y\"); # config('no')\n config('z');";
    let found = scan_laravel_config_usages(php, None);
    assert_eq!(found.len(), 2);
    for m in &found {
        assert_eq!(&php[m.start..m.end], m.key);
    }
    assert!(found[0].end < found[1].start);
    for m in &found {
        for offset in m.start..=m.end {
            assert_eq!(find_laravel_config_usage_at_cursor(php, offset).as_ref(), Some(m));
        }
        assert!(find_laravel_config_usage_at_cursor(php, m.end + 1).is_none());
    }
}

#[test]
fn some_strings_are_no_usages() {
    for php in [
        "config('')",
        "config(\"a.$b\")",
        "config(1, 'a')",
        "myconfig('a')",
        "config['a']",
        "config('a",
        "'a'",
        "Config::set('a')",
    ] {
        assert!(scan_laravel_config_usages(php, None).is_empty(), "{}", php);
    }
}

#[test]
fn escaped_quotes_stay_in_the_string() {
    let php = r"config('a\'b')";
    let found = scan_laravel_config_usages(php, None);
    assert_eq!(found.len(), 1);
    assert_eq!(found[0].key, r"a\'b");
    assert_eq!((found[0].start, found[0].end), (8, 12));
}

#[test]
fn call_prefixes() {
    assert!(is_laravel_config_call_prefix("config( 'x')", 8));
    assert!(is_laravel_config_call_prefix("\\CONFIG ('x')", 9));
    assert!(!is_laravel_config_call_prefix("'x'", 0));
    assert!(!is_laravel_config_call_prefix("('x')", 1));
    assert!(is_php_callee_char(b':'));
    assert!(is_php_callee_char(b'_'));
    assert!(is_php_callee_char(b'\\'));
    assert!(is_php_callee_char(b'7'));
    assert!(!is_php_callee_char(b'$'));
}

#[test]
fn array_calls() {
    assert!(is_array_call_before("array(", 5));
    assert!(is_array_call_before("Array (", 6));
    assert!(!is_array_call_before("in_array(", 8));
    assert!(!is_array_call_before("(", 0));
}

#[test]
fn trivia_is_skipped() {
    assert_eq!(skip_ws_and_comments(" /* a */ // b\n # c\n=>", 0), 19);
    assert_eq!(skip_ws_and_comments("x", 0), 0);
    assert_eq!(skip_ws_and_comments("x", 5), 5);
    assert_eq!(skip_ws_and_comments("/*ab", 0), 3);
}

#[test]
fn declarations_are_nested() {
    let php = "<?php return [\n  'name' => 'x',\n  'mail' => ['from' => ['address' => 1], 'to' => 2],\n  // 'no' => 1\n  'last' => 3,\n];\n";
    let found = collect_laravel_config_declarations(php, "app");
    let keys: Vec<&str> = found.iter().map(|m| m.key.as_str()).collect();
    assert_eq!(
        keys,
        vec!["app.name", "app.mail", "app.mail.from", "app.mail.from.address", "app.mail.to", "app.last"]
    );
    for m in &found {
        assert!(m.key.starts_with("app."));
        assert!(m.key.ends_with(&[".", &php[m.start..m.end]].concat()));
    }
    for pair in found.windows(2) {
        assert!(pair[0].end < pair[1].start);
    }
}

#[test]
fn long_arrays_close_with_parentheses() {
    let php = "<?php return array('a' => ['b' => f(1)], 'c' => array('d' => [1]), 'e' => 1);";
    let found = collect_laravel_config_declarations(php, "app");
    let keys: Vec<&str> = found.iter().map(|m| m.key.as_str()).collect();
    assert_eq!(keys, vec!["app.a", "app.a.b", "app.c", "app.c.d", "app.e"]);
}

fn declared(php: &str) -> Vec<String> {
    collect_laravel_config_declarations(php, "app").into_iter().map(|m| m.key).collect()
}

#[test]
fn long_arrays_nest_like_short_ones() {
    assert_eq!(
        declared("<?php return array('mail' => array('from' => 1));"),
        vec!["app.mail", "app.mail.from"]
    );
    assert_eq!(
        declared("['a' => ARRAY /* x */ // y\n ( 'b' => array('c' => 1) ), 'd' => 2]"),
        vec!["app.a", "app.a.b", "app.a.b.c", "app.d"]
    );
    assert_eq!(declared("['a' => in_array(['b' => 1]), 'c' => arrays('d')]"), vec!["app.a", "app.b", "app.c"]);
    assert_eq!(declared("['a' => array, ['b' => 1]]"), vec!["app.a", "app.b"]);
}

#[test]
fn string_values_are_no_parents() {
    assert_eq!(declared("['a' => 'x', ['b' => 1]]"), vec!["app.a", "app.b"]);
    assert_eq!(declared("['a' => 1, ['b' => 1]]"), vec!["app.a", "app.b"]);
}

#[test]
fn comments_may_stand_before_the_arrow() {
    let found = collect_laravel_config_declarations("['a' /* x */ => 1, 'b']", "p");
    assert_eq!(found.len(), 1);
    assert_eq!(found[0].key, "p.a");
    assert_eq!((found[0].start, found[0].end), (2, 3));
}

#[test]
fn dotted_keys() {
    assert_eq!(dotted_key("app", &vec!["mail".to_string(), "from".to_string()]), "app.mail.from");
    assert_eq!(dotted_key("app", &Vec::new()), "app");
}

#[test]
fn key_at_cursor_prefers_usages() {
    let uri = "file:///p/config/app.php";
    let php = "<?php return ['name' => config('other.key')];";
    let usage = php.find("other.key").unwrap();
    let declared = php.find("name").unwrap();
    assert_eq!(config_key_at_cursor(uri, php, usage), Some("other.key".to_string()));
    assert_eq!(config_key_at_cursor(uri, php, declared), Some("app.name".to_string()));
    assert_eq!(config_key_at_cursor(uri, php, 0), None);
    assert_eq!(config_key_at_cursor("file:///p/src/app.php", php, declared), None);
    assert_eq!(config_key_at_cursor("no url", php, declared), None);
}

#[test]
fn prefixes_of_odd_uris() {
    assert_eq!(laravel_config_prefix_from_uri("not a url"), None);
    assert_eq!(laravel_config_prefix_from_uri("file:///config/.php"), None);
    assert_eq!(laravel_config_prefix_from_uri("file:///config/a.txt"), None);
    assert_eq!(laravel_config_prefix_from_uri("file:///x/config"), None);
    assert_eq!(
        laravel_config_prefix_from_uri("file:///config/sub//my app.php?x"),
        Some("my%20app".to_string())
    );
}

fn file(uri: &str, content: &str) -> SourceFile {
    SourceFile { uri: uri.to_string(), content: Some(content.to_string()) }
}

fn starts(locations: &[Location]) -> Vec<(String, u32, u32)> {
    locations
        .iter()
        .map(|l| (l.uri.clone(), l.range.start.line, l.range.start.character))
        .collect()
}

#[test]
fn references_across_files() {
    let files = vec![
        file("file:///p/b c.php", "<?php\nconfig('app.name');\n\nconfig('app.name');"),
        file("no url", "config('app.name')"),
        SourceFile { uri: "file:///p/gone.php".to_string(), content: None },
        file("file:///p/config/app.php", "<?php return ['name' => 1, 'x' => ['name' => 2]];"),
        file("file:///p/a.php", "config('app.name')"),
    ];
    let used = find_all_config_references(&files, "app.name", false);
    assert_eq!(
        starts(&used),
        vec![
            ("file:///p/b%20c.php".to_string(), 1, 8),
            ("file:///p/b%20c.php".to_string(), 3, 8),
            ("file:///p/a.php".to_string(), 0, 8),
        ]
    );
    let all = find_all_config_references(&files, "app.name", true);
    assert_eq!(&all[..3], &used[..]);
    assert_eq!(starts(&all[3..]), vec![("file:///p/config/app.php".to_string(), 0, 15)]);

    let twice = vec![file("file:///p/a.php", "config('k')"), file("file:///p/a.php", "config('k')")];
    assert_eq!(find_all_config_references(&twice, "k", true).len(), 1);

    let at = Position { line: 0, character: 9 };
    let sorted = find_config_references(&files, "file:///p/a.php", "config('app.name')", at, true)
        .unwrap();
    assert_eq!(
        starts(&sorted),
        vec![
            ("file:///p/a.php".to_string(), 0, 8),
            ("file:///p/b%20c.php".to_string(), 1, 8),
            ("file:///p/b%20c.php".to_string(), 3, 8),
            ("file:///p/config/app.php".to_string(), 0, 15),
        ]
    );
    assert!(find_config_references(&files, "file:///x.php", "config('none')", at, true).is_none());
    assert!(find_config_references(&files, "file:///x.php", "nothing", at, true).is_none());
}

#[test]
fn definitions_of_configuration_keys() {
    let php = "<?php config('app.mail.from');";
    let at = offset_to_position(php, php.find("mail").unwrap());
    let target = config_target_at_cursor(php, at).unwrap();
    assert_eq!(target.key, "app.mail.from");
    assert_eq!(target.file_stem, "app");
    assert!(config_target_at_cursor(php, Position { line: 0, character: 0 }).is_none());

    let disk = |content: &str| {
        Some(DiskFile {
            uri: Some("file:///p/config/app.php".to_string()),
            content: Some(content.to_string()),
        })
    };
    let found = resolve_config_definition(
        &target,
        disk("<?php return [\n 'mail' => ['from' => 1]];"),
    )
    .unwrap();
    assert_eq!(found.uri, "file:///p/config/app.php");
    assert_eq!(found.range.start, Position { line: 1, character: 13 });
    assert_eq!(found.range.start, found.range.end);
    let top = resolve_config_definition(&target, disk("<?php return [];")).unwrap();
    assert_eq!(top.range.start, Position { line: 0, character: 0 });
    assert!(resolve_config_definition(&target, None).is_none());
    assert!(resolve_config_definition(
        &target,
        Some(DiskFile { uri: Some("file:///x".to_string()), content: None })
    )
    .is_none());
    assert!(resolve_config_definition(
        &target,
        Some(DiskFile { uri: None, content: Some(String::new()) })
    )
    .is_none());
}

#[test]
fn positions_come_back() {
    let s = "a\u{e9}\u{1f600}b\r\nx\n";
    for (offset, _) in s.char_indices() {
        assert_eq!(position_to_offset(s, offset_to_position(s, offset)) as usize, offset);
    }
    assert_eq!(offset_to_position(s, 7), Position { line: 0, character: 4 });
    assert_eq!(offset_to_position(s, 10), Position { line: 1, character: 0 });
    assert_eq!(offset_to_position(s, 100), Position { line: 2, character: 0 });
    assert_eq!(position_to_offset(s, Position { line: 0, character: 99 }), 9);
    assert_eq!(position_to_offset(s, Position { line: 9, character: 0 }), 12);
}

#[test]
fn prefix_changes_only_the_head_of_keys() {
    let php = "['a' => ['b' => 1], 'c' => 2]";
    let one = collect_laravel_config_declarations(php, "x");
    let other = collect_laravel_config_declarations(php, "long");
    assert_eq!(one.len(), other.len());
    for (m, n) in one.iter().zip(&other) {
        assert_eq!((m.start, m.end), (n.start, n.end));
        assert_eq!(m.key.strip_prefix("x"), n.key.strip_prefix("long"));
    }
}
