use laravel_keys::env_vars::{
    env_file, env_file_at, env_file_names, env_key_at_dotenv_position, find_env_key_declarations, find_env_key_line,
    find_env_key_position, find_env_references, find_env_references_from_dotenv,
    find_env_usage_at_cursor, resolve_env_definition_fallback, resolve_env_key_definition, EnvFile,
    IndexedFile, LaravelStringKind, SymbolKind, SymbolSpan,
};
use laravel_keys::location::Position;

fn env_key_at(content: &str, offset: usize) -> Option<String> {
    find_env_usage_at_cursor(content, offset)
}

#[test]
fn detects_env_call() {
    let php = "<?php\n$v = env('APP_NAME');\n";
    let offset = php.find("APP_NAME").unwrap();
    assert_eq!(env_key_at(php, offset), Some("APP_NAME".into()));
}

#[test]
fn ignores_non_env_string() {
    let php = "<?php\n$v = 'APP_NAME';\n";
    let offset = php.find("APP_NAME").unwrap();
    assert!(env_key_at(php, offset).is_none());
}

#[test]
fn detects_env_with_default() {
    let php = "<?php\nenv('DB_HOST', 'localhost');\n";
    let offset = php.find("DB_HOST").unwrap();
    assert_eq!(env_key_at(php, offset), Some("DB_HOST".into()));
}

#[test]
fn finds_env_key_line() {
    let env = "APP_NAME=Laravel\nDB_HOST=127.0.0.1\n";
    let pos = find_env_key_line(env, "DB_HOST");
    assert_eq!(pos.line, 1);
}

#[test]
fn missing_env_key_returns_line_zero() {
    let env = "APP_NAME=Laravel\n";
    let pos = find_env_key_line(env, "MISSING");
    assert_eq!(pos.line, 0);
}

#[test]
fn find_env_key_position_returns_none_for_missing() {
    let env = "APP_NAME=Laravel\n";
    assert!(find_env_key_position(env, "MISSING").is_none());
}

#[test]
fn find_env_key_position_finds_key() {
    let env = "APP_NAME=Laravel\nAPP_KEY=secret\n";
    let pos = find_env_key_position(env, "APP_KEY").unwrap();
    assert_eq!(pos.line, 1);
}

#[test]
fn env_calls_may_be_qualified_and_in_any_case() {
    let php = "<?php \\ENV('A'); Env(key: 'B'); app\\env('C'); env(); env($x, 'D');";
    let at = |needle: &str| find_env_usage_at_cursor(php, php.find(needle).unwrap() + 1);
    assert_eq!(at("'A"), Some("A".to_string()));
    assert_eq!(at("'B"), Some("B".to_string()));
    assert_eq!(at("'C"), None);
    assert_eq!(at("'D"), None);
}

#[test]
fn env_key_is_found_up_to_its_closing_quote() {
    let php = "<?php env('KEY');";
    assert_eq!(find_env_usage_at_cursor(php, 10), None);
    assert_eq!(find_env_usage_at_cursor(php, 11), Some("KEY".to_string()));
    assert_eq!(find_env_usage_at_cursor(php, 14), Some("KEY".to_string()));
    assert_eq!(find_env_usage_at_cursor(php, 15), None);
}

#[test]
fn env_lines() {
    let env = "# A=1\r\n\r\n  A = 2\r\nAB=3\nA=4";
    assert_eq!(find_env_key_position(env, "A"), Some(Position { line: 2, character: 0 }));
    assert_eq!(find_env_key_position(env, "AB"), Some(Position { line: 3, character: 0 }));
    assert_eq!(find_env_key_position(env, "B"), None);
    assert_eq!(find_env_key_position("\u{3000}K\u{a0}=1", "K"), Some(Position { line: 0, character: 0 }));
    assert_eq!(find_env_key_position("", "K"), None);
    assert_eq!(find_env_key_line(env, "none"), Position { line: 0, character: 0 });
}

#[test]
fn key_under_the_dotenv_cursor() {
    let env = "# A=1\n\n  KEY = a=b\nnothing\n=x\n";
    let at = |line: u32| env_key_at_dotenv_position(env, Position { line, character: 3 });
    assert_eq!(at(0), None);
    assert_eq!(at(1), None);
    assert_eq!(at(2), Some("KEY".to_string()));
    assert_eq!(at(3), None);
    assert_eq!(at(4), None);
    assert_eq!(at(5), None);
    assert_eq!(find_env_key_position(env, "KEY").unwrap().line, 2);
}

fn text(name: &str, content: &str) -> EnvFile {
    EnvFile::Text { uri: Some(["file:///p/", name].concat()), content: content.to_string() }
}

#[test]
fn first_env_file_with_the_key_defines_it() {
    let names = env_file_names();
    assert_eq!(
        names,
        vec![".env.local", ".env", ".env.testing", ".env.production", ".env.staging", ".env.example"]
    );
    let files = vec![text(".env.local", "B=1"), EnvFile::Missing, text(".env", "\nA=1"), text(".env.example", "A=2")];
    let found = resolve_env_key_definition(&files, "A").unwrap();
    assert_eq!(found.uri, "file:///p/.env");
    assert_eq!(found.range.start, Position { line: 1, character: 0 });
    assert_eq!(found.range.end, found.range.start);
    assert!(resolve_env_key_definition(&files, "C").is_none());

    let all = find_env_key_declarations(&files, "A");
    assert_eq!(all.len(), 2);
    assert_eq!(all[0], found);
    assert_eq!(all[1].uri, "file:///p/.env.example");
}

#[test]
fn unreadable_env_files() {
    let no_uri = EnvFile::Text { uri: None, content: "A=1".to_string() };
    let files = vec![EnvFile::Unreadable, text(".env", "A=1")];
    let found = resolve_env_key_definition(&files, "A").unwrap();
    assert_eq!(found.uri, "file:///p/.env");
    assert_eq!(find_env_key_declarations(&files, "A"), vec![found]);
    let files = vec![no_uri, text(".env", "A=1")];
    assert!(resolve_env_key_definition(&files, "A").is_none());
    assert_eq!(find_env_key_declarations(&files, "A").len(), 1);
}

fn span(start: u32, end: u32, kind: LaravelStringKind, key: &str) -> SymbolSpan {
    SymbolSpan { start, end, kind: SymbolKind::LaravelStringKey { kind, key: key.to_string() } }
}

fn indexed() -> Vec<IndexedFile> {
    let php = "<?php\nenv('A'); env('A');";
    vec![
        IndexedFile {
            uri: "file:///p/x y.php".to_string(),
            content: Some(php.to_string()),
            spans: vec![
                span(11, 12, LaravelStringKind::Env, "A"),
                span(11, 12, LaravelStringKind::Env, "A"),
                span(21, 22, LaravelStringKind::Env, "A"),
                span(11, 12, LaravelStringKind::Config, "A"),
                span(11, 12, LaravelStringKind::Env, "B"),
                SymbolSpan { start: 0, end: 1, kind: SymbolKind::Other },
            ],
        },
        IndexedFile {
            uri: "file:///p/gone.php".to_string(),
            content: None,
            spans: vec![span(0, 1, LaravelStringKind::Env, "A")],
        },
        IndexedFile {
            uri: "no url".to_string(),
            content: Some(php.to_string()),
            spans: vec![span(0, 1, LaravelStringKind::Env, "A")],
        },
    ]
}

#[test]
fn references_of_env_keys() {
    let env_files = vec![text(".env", "A=1"), text(".env", "A=1")];
    let used = find_env_references(&indexed(), &env_files, "A", false);
    assert_eq!(used.len(), 2);
    assert_eq!(used[0].uri, "file:///p/x%20y.php");
    assert_eq!(used[0].range.start, Position { line: 1, character: 5 });
    assert_eq!(used[0].range.end, Position { line: 1, character: 6 });
    assert_eq!(used[1].range.start, Position { line: 1, character: 15 });
    let all = find_env_references(&indexed(), &env_files, "A", true);
    assert_eq!(all.len(), 4);
    assert_eq!(&all[..2], &used[..]);
    assert_eq!(all[2], all[3]);
}

#[test]
fn references_from_an_env_file() {
    let at = |line: u32| Position { line, character: 0 };
    let content = "A=1\n# no\nC=2";
    let found = |line: u32, declared: bool| {
        find_env_references_from_dotenv(&indexed(), &vec![text(".env", content)], content, at(line), declared)
    };
    assert_eq!(found(0, false).unwrap().len(), 2);
    assert_eq!(found(0, true).unwrap().len(), 3);
    assert!(found(1, true).is_none());
    assert!(found(2, false).is_none());
    assert_eq!(found(2, true).unwrap()[0].range.start.line, 2);
}

#[test]
fn definition_without_an_index() {
    let files = vec![text(".env", "A=1")];
    let at = Position { line: 0, character: 11 };
    assert_eq!(
        resolve_env_definition_fallback(&files, "<?php env('A');", at).unwrap().uri,
        "file:///p/.env"
    );
    assert!(resolve_env_definition_fallback(&files, "<?php env ('A');", Position { line: 0, character: 12 }).is_none());
    assert!(resolve_env_definition_fallback(&files, "<?php env('B');", at).is_none());
    assert!(resolve_env_definition_fallback(&files, "<?php env('A');", Position { line: 0, character: 0 }).is_none());
}

#[test]
fn looks_at_env_files() {
    assert_eq!(env_file("/p/.env", false, None), EnvFile::Missing);
    assert_eq!(env_file("/p/.env", true, None), EnvFile::Unreadable);
    let uri = Some("file:///p/.env".to_string());
    let content = Some("A=1".to_string());
    assert_eq!(env_file_at(uri.clone(), false, content.clone()), EnvFile::Missing);
    assert_eq!(env_file_at(uri.clone(), true, None), EnvFile::Unreadable);
    assert_eq!(env_file_at(uri, true, content), text(".env", "A=1"));
    assert_eq!(env_file("/p/.env", true, Some("A=1".to_string())), text(".env", "A=1"));
}
