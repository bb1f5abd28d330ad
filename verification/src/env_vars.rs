//! Environment variables: `env('KEY')` in PHP source and `KEY=value` in `.env` files.
use vstd::prelude::*;
use vstd::string::*;
use vstd::utf8::*;

use crate::lines;
use crate::location;
use crate::location::{Location, Position};
use crate::php;
use crate::php::{PhpKind, PhpNode};
use crate::php_calls;
use crate::search;
use crate::text;
use crate::urls;

verus! {

/// What a look at one of the env files finds. `uri` is there if the file's path has one.
#[derive(Debug, Clone, PartialEq, Eq)]
pub enum EnvFile {
    Missing,
    Unreadable,
    Text { uri: Option<String>, content: String },
}

/// What a string in PHP source stands for.
#[derive(Debug, Clone, Copy, PartialEq, Eq, Structural)]
pub enum LaravelStringKind {
    Env,
    Config,
    Route,
    View,
    Trans,
}

/// What is known of a piece of PHP source.
#[derive(Debug, Clone, PartialEq, Eq)]
pub enum SymbolKind {
    LaravelStringKey { kind: LaravelStringKind, key: String },
    Other,
}

/// A piece of PHP source, by the offsets of its bytes.
#[derive(Debug, Clone, PartialEq, Eq)]
pub struct SymbolSpan {
    pub start: u32,
    pub end: u32,
    pub kind: SymbolKind,
}

/// A PHP file whose symbols are known: where it is, its text if it is there, and its symbols.
#[derive(Debug, Clone, PartialEq, Eq)]
pub struct IndexedFile {
    pub uri: String,
    pub content: Option<String>,
    pub spans: Vec<SymbolSpan>,
}

/// The names of the env files, the one that takes precedence first.
pub open spec fn env_names() -> Seq<Seq<char>> {
    seq![
        ".env.local"@,
        ".env"@,
        ".env.testing"@,
        ".env.production"@,
        ".env.staging"@,
        ".env.example"@,
    ]
}

/// Whether a line of an env file declares `key`: the key, white space, and an equals sign.
pub open spec fn declares_key(line: Seq<char>, key: Seq<char>) -> bool {
    let entry = lines::trimmed_start(line);
    let rest = lines::trimmed_start(entry.skip(key.len() as int));
    key.is_prefix_of(entry) && rest.len() > 0 && rest[0] == '='
}

/// The first of the lines, from the line `i` on, that declares `key`; the number of lines if none
/// does.
pub open spec fn declaring_line(ls: Seq<Seq<char>>, key: Seq<char>, i: int) -> int
    decreases ls.len() - i,
{
    if i >= ls.len() {
        ls.len() as int
    } else if declares_key(ls[i], key) {
        i
    } else {
        declaring_line(ls, key, i + 1)
    }
}

/// Where an env file declares `key` first: the start of the line.
pub open spec fn key_position(content: Seq<char>, key: Seq<char>) -> Option<Position> {
    let ls = lines::lines_of(content);
    let line = declaring_line(ls, key, 0);
    if line < ls.len() {
        Some(Position { line: line as u32, character: 0 })
    } else {
        None
    }
}

/// The key that a line of an env file declares: what stands before the first equals sign.
pub open spec fn declared_key(line: Seq<char>) -> Option<Seq<char>> {
    let entry = lines::trimmed_start(line);
    let equals = text::find_char(entry, '=', 0);
    let key = lines::trimmed(entry.take(equals));
    if entry.len() == 0 || entry[0] == '#' || equals == entry.len() || key.len() == 0 {
        None
    } else {
        Some(key)
    }
}

/// The key that the line under the cursor declares.
pub open spec fn key_at_line(content: Seq<char>, line: int) -> Option<Seq<char>> {
    let ls = lines::lines_of(content);
    if 0 <= line < ls.len() {
        declared_key(ls[line])
    } else {
        None
    }
}

/// The definition of `key`: its declaration in the first env file that has one. Files that are missing
/// or cannot be read are passed over; there is no definition if the file that has it has no URI.
pub open spec fn key_definition(fs: Seq<EnvFile>, key: Seq<char>) -> Option<location::Place>
    decreases fs.len(),
{
    if fs.len() == 0 {
        None
    } else {
        match fs[0] {
            EnvFile::Missing => key_definition(fs.drop_first(), key),
            EnvFile::Unreadable => key_definition(fs.drop_first(), key),
            EnvFile::Text { uri, content } => match key_position(content@, key) {
                Some(position) => match uri {
                    Some(uri) => Some(location::point(uri@, position)),
                    None => None,
                },
                None => key_definition(fs.drop_first(), key),
            },
        }
    }
}

/// Where an env file declares `key`, if the file can be read and has a URI.
pub open spec fn key_declaration(f: EnvFile, key: Seq<char>) -> Option<location::Place> {
    match f {
        EnvFile::Text { uri: Some(uri), content } => match key_position(content@, key) {
            Some(position) => Some(location::point(uri@, position)),
            None => None,
        },
        _ => None,
    }
}

/// The declarations of `key` in all env files.
pub open spec fn key_declarations(fs: Seq<EnvFile>, key: Seq<char>) -> Seq<location::Place>
    decreases fs.len(),
{
    if fs.len() == 0 {
        Seq::empty()
    } else {
        match key_declaration(fs.last(), key) {
            Some(place) => key_declarations(fs.drop_last(), key).push(place),
            None => key_declarations(fs.drop_last(), key),
        }
    }
}

/// Whether a symbol is the argument `key` of `env()`.
pub open spec fn is_env_key(span: SymbolSpan, key: Seq<char>) -> bool {
    span.kind matches SymbolKind::LaravelStringKey { kind: LaravelStringKind::Env, key: k } && k@
        == key
}

/// The place of a symbol.
pub open spec fn symbol_place(
    uri: Seq<char>,
    content: Seq<char>,
    span: SymbolSpan,
) -> location::Place {
    location::Place {
        uri,
        range: location::Range {
            start: location::position_at(content, span.start as int),
            end: location::position_at(content, span.end as int),
        },
    }
}

/// The places of those symbols that are the argument `key` of `env()`.
pub open spec fn symbol_places(
    uri: Seq<char>,
    content: Seq<char>,
    spans: Seq<SymbolSpan>,
    key: Seq<char>,
) -> Seq<location::Place>
    decreases spans.len(),
{
    if spans.len() == 0 {
        Seq::empty()
    } else if is_env_key(spans.last(), key) {
        symbol_places(uri, content, spans.drop_last(), key).push(
            symbol_place(uri, content, spans.last()),
        )
    } else {
        symbol_places(uri, content, spans.drop_last(), key)
    }
}

/// Where a file uses `key`, if its URI is a URL and its text is there.
pub open spec fn file_usages(f: IndexedFile, key: Seq<char>) -> Seq<location::Place> {
    match (urls::url_parts(f.uri@), f.content) {
        (Some((href, _)), Some(content)) => symbol_places(href, content@, f.spans@, key),
        _ => Seq::empty(),
    }
}

/// Where the files use `key`, one file after the other.
pub open spec fn all_usages(fs: Seq<IndexedFile>, key: Seq<char>) -> Seq<location::Place>
    decreases fs.len(),
{
    if fs.len() == 0 {
        Seq::empty()
    } else {
        all_usages(fs.drop_last(), key) + file_usages(fs.last(), key)
    }
}

/// Where `key` is used, each place once, and then, if wanted, where it is declared.
pub open spec fn env_references(
    files: Seq<IndexedFile>,
    env_files: Seq<EnvFile>,
    key: Seq<char>,
    include_declaration: bool,
) -> Seq<location::Place> {
    location::unique_places(all_usages(files, key)) + (if include_declaration {
        key_declarations(env_files, key)
    } else {
        Seq::empty()
    })
}

/// The key with which the expression calls `env()`.
pub open spec fn env_call(t: php::Tree, content: Seq<char>) -> Option<php::TextSpan> {
    match php_calls::call_as(t, PhpKind::FunctionCall, 2) {
        Some(call) => match php_calls::name_of(call.children[0], content) {
            Some(name) => if text::same_ignoring_case(
                encode_utf8(php_calls::unqualified(name)),
                "env".spec_bytes(),
            ) {
                php_calls::first_string(call.children[1], content)
            } else {
                None
            },
            None => None,
        },
        None => None,
    }
}

/// The key of the first call of `env()` among the expressions whose key is under the cursor.
pub open spec fn env_key_among(es: Seq<php::Tree>, content: Seq<char>, offset: int) -> Option<
    Seq<char>,
>
    decreases es.len(),
{
    if es.len() == 0 {
        None
    } else {
        match env_call(es[0], content) {
            Some(key) => if key.start <= offset <= key.end {
                Some(key.text)
            } else {
                env_key_among(es.drop_first(), content, offset)
            },
            None => env_key_among(es.drop_first(), content, offset),
        }
    }
}

/// The names of the env files, the one that takes precedence first.
///
/// The first file that exists and holds a key is where the key is defined; the declarations of a key
/// are those in all of the files.
pub fn env_file_names() -> (r: Vec<String>)
    ensures
        text::views(r@) == env_names(),
        text::views(r@) == seq![
            ".env.local"@,
            ".env"@,
            ".env.testing"@,
            ".env.production"@,
            ".env.staging"@,
            ".env.example"@,
        ],
{
    let mut r: Vec<String> = Vec::new();
    r.push(".env.local".to_owned());
    r.push(".env".to_owned());
    r.push(".env.testing".to_owned());
    r.push(".env.production".to_owned());
    r.push(".env.staging".to_owned());
    r.push(".env.example".to_owned());
    assert(text::views(r@) =~= env_names());
    r
}

/// What a look at an env file found: its URI, whether it is there, and its text if it can be read.
pub fn env_file_at(uri: Option<String>, exists: bool, text: Option<String>) -> (r: EnvFile)
    ensures
        r == (match text {
            Some(content) => if exists {
                EnvFile::Text { uri, content }
            } else {
                EnvFile::Missing
            },
            None => if exists {
                EnvFile::Unreadable
            } else {
                EnvFile::Missing
            },
        }),
{
    if !exists {
        return EnvFile::Missing;
    }
    match text {
        Some(content) => EnvFile::Text { uri, content },
        None => EnvFile::Unreadable,
    }
}

/// What a look at the env file at a path found: whether it is there, and its text if it can be read.
pub fn env_file(path: &str, exists: bool, text: Option<String>) -> (r: EnvFile)
    ensures
        match text {
            Some(t) => if exists {
                r matches EnvFile::Text { uri, content } && content == t
                    && urls::is_file_uri_of(uri, path@)
            } else {
                r is Missing
            },
            None => if exists {
                r is Unreadable
            } else {
                r is Missing
            },
        },
{
    env_file_at(urls::uri_of_path(path), exists, text)
}

/// Whether a line of an env file declares `key`.
fn line_declares(line: &str, key: &str) -> (r: bool)
    ensures
        r == declares_key(line@, key@),
{
    let entry = lines::trim_start(line);
    if !search::starts_with(entry, key) {
        return false;
    }
    let skipped = key.unicode_len();
    let count = entry.unicode_len();
    assert(entry@.subrange(skipped as int, count as int) =~= entry@.skip(skipped as int));
    let rest = lines::trim_start(entry.substring_char(skipped, count));
    rest.unicode_len() > 0 && rest.get_char(0) == '='
}

/// Where an env file declares `key` first, or `None` if it does not.
pub fn find_env_key_position(env_content: &str, key: &str) -> (r: Option<Position>)
    ensures
        r == key_position(env_content@, key@),
{
    let all = lines::split_lines(env_content);
    let ghost ls = text::views(all@);
    let mut i: usize = 0;
    while i < all.len()
        invariant
            i <= all@.len(),
            ls == text::views(all@),
            ls == lines::lines_of(env_content@),
            declaring_line(ls, key@, i as int) == declaring_line(ls, key@, 0),
        decreases all@.len() - i,
    {
        if line_declares(all[i].as_str(), key) {
            return Some(Position { line: i as u32, character: 0 });
        }
        i += 1;
    }
    None
}

/// Where an env file declares `key` first, or its start if it does not.
pub fn find_env_key_line(env_content: &str, key: &str) -> (r: Position)
    ensures
        match key_position(env_content@, key@) {
            Some(position) => r == position,
            None => r == location::origin(),
        },
{
    match find_env_key_position(env_content, key) {
        Some(position) => position,
        None => Position { line: 0, character: 0 },
    }
}

/// The definition of `key`, given what a look at each env file found, in the order of their
/// precedence.
pub fn resolve_env_key_definition(env_files: &Vec<EnvFile>, key: &str) -> (r: Option<Location>)
    ensures
        location::is_place(r, key_definition(env_files@, key@)),
{
    let ghost fs = env_files@;
    let mut i: usize = 0;
    assert(fs.skip(0) =~= fs);
    while i < env_files.len()
        invariant
            i <= env_files@.len(),
            fs == env_files@,
            key_definition(fs.skip(i as int), key@) == key_definition(fs, key@),
        decreases env_files@.len() - i,
    {
        assert(fs.skip(i as int)[0] == fs[i as int]);
        assert(fs.skip(i as int).drop_first() =~= fs.skip(i + 1));
        match &env_files[i] {
            EnvFile::Missing => {},
            EnvFile::Unreadable => {},
            EnvFile::Text { uri, content } => {
                if let Some(position) = find_env_key_position(content.as_str(), key) {
                    return match uri {
                        Some(uri) => Some(location::point_location(uri.clone(), position)),
                        None => None,
                    };
                }
            },
        }
        i += 1;
    }
    assert(fs.skip(i as int).len() == 0);
    None
}

/// The declarations of `key`, given what a look at each env file found.
pub fn find_env_key_declarations(env_files: &Vec<EnvFile>, key: &str) -> (r: Vec<Location>)
    ensures
        location::places(r@) == key_declarations(env_files@, key@),
{
    let ghost fs = env_files@;
    let mut out: Vec<Location> = Vec::new();
    let mut i: usize = 0;
    assert(fs.take(0) =~= Seq::empty());
    assert(location::places(out@) =~= Seq::empty());
    while i < env_files.len()
        invariant
            i <= env_files@.len(),
            fs == env_files@,
            location::places(out@) == key_declarations(fs.take(i as int), key@),
        decreases env_files@.len() - i,
    {
        let ghost held = out@;
        assert(fs.take(i + 1).drop_last() =~= fs.take(i as int));
        assert(fs.take(i + 1).last() == fs[i as int]);
        if let EnvFile::Text { uri, content } = &env_files[i] {
            if let Some(position) = find_env_key_position(content.as_str(), key) {
                if let Some(uri) = uri {
                    out.push(location::point_location(uri.clone(), position));
                    assert(location::places(out@) =~= location::places(held).push(
                        out@.last()@,
                    ));
                }
            }
        }
        i += 1;
    }
    assert(fs.take(i as int) =~= fs);
    out
}

/// Adds the places of the symbols that are the argument `key` of `env()` and are not there yet.
fn add_symbols(
    locations: &mut Vec<Location>,
    Ghost(seen): Ghost<Seq<location::Place>>,
    uri: &str,
    content: &str,
    spans: &Vec<SymbolSpan>,
    key: &str,
)
    requires
        location::places(old(locations)@) == location::unique_places(seen),
    ensures
        location::places(final(locations)@) == location::unique_places(
            seen + symbol_places(uri@, content@, spans@, key@),
        ),
{
    let mut k: usize = 0;
    assert(spans@.take(0) =~= Seq::empty());
    assert(seen + symbol_places(uri@, content@, spans@.take(0), key@) =~= seen);
    while k < spans.len()
        invariant
            k <= spans@.len(),
            location::places(locations@) == location::unique_places(
                seen + symbol_places(uri@, content@, spans@.take(k as int), key@),
            ),
        decreases spans@.len() - k,
    {
        let span = &spans[k];
        let ghost before = symbol_places(uri@, content@, spans@.take(k as int), key@);
        assert(spans@.take(k + 1).drop_last() =~= spans@.take(k as int));
        assert(spans@.take(k + 1).last() == span);
        if let SymbolKind::LaravelStringKey { kind, key: found } = &span.kind {
            if *kind == LaravelStringKind::Env && text::str_eq(found.as_str(), key) {
                let start = location::offset_to_position(content, span.start as usize);
                let end = location::offset_to_position(content, span.end as usize);
                location::push_unique_location(locations, uri, start, end);
                proof {
                    let p = symbol_place(uri@, content@, *span);
                    location::lemma_unique_push(seen + before, p);
                    assert(seen + before.push(p) =~= (seen + before).push(p));
                }
            }
        }
        k += 1;
    }
    assert(spans@.take(k as int) =~= spans@);
}

/// All references of an env key across the project: its usages in the PHP files and, if wanted, its
/// declarations in the env files behind them.
pub fn find_env_references(
    files: &Vec<IndexedFile>,
    env_files: &Vec<EnvFile>,
    key: &str,
    include_declaration: bool,
) -> (r: Vec<Location>)
    ensures
        location::places(r@) == env_references(files@, env_files@, key@, include_declaration),
{
    let ghost fs = files@;
    let mut locations: Vec<Location> = Vec::new();
    let mut k: usize = 0;
    assert(fs.take(0) =~= Seq::empty());
    assert(location::places(locations@) =~= Seq::empty());
    while k < files.len()
        invariant
            k <= files@.len(),
            fs == files@,
            location::places(locations@) == location::unique_places(
                all_usages(fs.take(k as int), key@),
            ),
        decreases files@.len() - k,
    {
        let file = &files[k];
        let ghost seen = all_usages(fs.take(k as int), key@);
        assert(fs.take(k + 1).drop_last() =~= fs.take(k as int));
        assert(fs.take(k + 1).last() == file);
        assert(seen + Seq::<location::Place>::empty() =~= seen);
        if let Some((href, _)) = urls::parse_url(file.uri.as_str()) {
            if let Some(content) = &file.content {
                add_symbols(
                    &mut locations,
                    Ghost(seen),
                    href.as_str(),
                    content.as_str(),
                    &file.spans,
                    key,
                );
            }
        }
        k += 1;
    }
    assert(fs.take(k as int) =~= fs);
    if include_declaration {
        let ghost used = locations@;
        let mut declared = find_env_key_declarations(env_files, key);
        let ghost found = declared@;
        locations.append(&mut declared);
        assert(location::places(locations@) =~= location::places(used) + location::places(found));
    } else {
        assert(location::places(locations@) + Seq::<location::Place>::empty()
            =~= location::places(locations@));
    }
    locations
}

/// The key that the line under the cursor declares in an env file.
///
/// `None` for comment lines, blank lines, and lines without an equals sign.
pub fn env_key_at_dotenv_position(content: &str, position: Position) -> (r: Option<String>)
    ensures
        text::is_text(r, key_at_line(content@, position.line as int)),
{
    let all = lines::split_lines(content);
    let number = position.line as usize;
    if number >= all.len() {
        return None;
    }
    assert(lines::lines_of(content@)[number as int] == all@[number as int]@);
    let entry = lines::trim_start(all[number].as_str());
    let count = entry.unicode_len();
    if count == 0 || entry.get_char(0) == '#' {
        return None;
    }
    let chars = text::chars_of(entry);
    let equals = text::index_of_char(&chars, '=', 0);
    if equals == count {
        return None;
    }
    assert(entry@.subrange(0, equals as int) =~= entry@.take(equals as int));
    let key = lines::trim(entry.substring_char(0, equals));
    if key.unicode_len() == 0 {
        None
    } else {
        Some(key.to_owned())
    }
}

/// All references of the env key that the line under the cursor declares in an env file.
///
/// `None` where the line declares no key or nothing refers to it.
pub fn find_env_references_from_dotenv(
    files: &Vec<IndexedFile>,
    env_files: &Vec<EnvFile>,
    content: &str,
    position: Position,
    include_declaration: bool,
) -> (r: Option<Vec<Location>>)
    ensures
        match key_at_line(content@, position.line as int) {
            Some(key) => {
                let found = env_references(files@, env_files@, key, include_declaration);
                match r {
                    Some(l) => found.len() > 0 && location::places(l@) == found,
                    None => found.len() == 0,
                }
            },
            None => r is None,
        },
{
    match env_key_at_dotenv_position(content, position) {
        Some(key) => {
            let locations = find_env_references(
                files,
                env_files,
                key.as_str(),
                include_declaration,
            );
            assert(location::places(locations@).len() == locations@.len());
            if locations.len() == 0 {
                None
            } else {
                Some(locations)
            }
        },
        None => None,
    }
}

/// The key with which the expression calls `env()`, with the offsets where it begins and ends. The
/// function may be fully qualified, and the case of its name does not matter.
pub fn try_env_call<'c>(expr: &PhpNode, content: &'c str) -> (r: Option<(&'c str, usize, usize)>)
    ensures
        php::is_span(r, env_call(expr.tree(), content@)),
{
    let call = match php_calls::call_node(expr, PhpKind::FunctionCall, 2) {
        Some(call) => call,
        None => return None,
    };
    assert(call.tree().children[0] == call.children@[0].tree());
    assert(call.tree().children[1] == call.children@[1].tree());
    match php_calls::name_text(&call.children[0], content) {
        Some(name) => if text::str_eq_ignoring_case(php_calls::strip_fqn_prefix(name), "env") {
            php_calls::first_string_argument(&call.children[1], content)
        } else {
            None
        },
        None => None,
    }
}

/// The key of the call of `env()` in a syntax tree whose key is under the cursor.
pub fn find_env_usage_in_tree(root: &PhpNode, content: &str, cursor_offset: usize) -> (r: Option<
    String,
>)
    ensures
        text::is_text(
            r,
            env_key_among(php::expressions(root.tree()), content@, cursor_offset as int),
        ),
{
    let nodes = php::list_expressions(root);
    let ghost es = php::trees_of(nodes@);
    let mut k: usize = 0;
    assert(es.skip(0) =~= es);
    while k < nodes.len()
        invariant
            k <= nodes@.len(),
            es == php::trees_of(nodes@),
            es == php::expressions(root.tree()),
            env_key_among(es.skip(k as int), content@, cursor_offset as int) == env_key_among(
                es,
                content@,
                cursor_offset as int,
            ),
        decreases nodes@.len() - k,
    {
        assert(es.skip(k as int)[0] == nodes@[k as int].tree());
        assert(es.skip(k as int).drop_first() =~= es.skip(k + 1));
        if let Some((key, start, end)) = try_env_call(nodes[k], content) {
            if start <= cursor_offset && cursor_offset <= end {
                return Some(key.to_owned());
            }
        }
        k += 1;
    }
    assert(es.skip(k as int).len() == 0);
    None
}

/// The key of the call of `env()` in PHP source whose key is under the cursor.
pub fn find_env_usage_at_cursor(content: &str, cursor_offset: usize) -> (r: Option<String>)
    requires
        php::is_addressable(content@),
    ensures
        text::is_text(
            r,
            env_key_among(php::php_expressions(content@), content@, cursor_offset as int),
        ),
{
    match php::parse_tree(content) {
        Some(root) => find_env_usage_in_tree(&root, content, cursor_offset),
        None => None,
    }
}

/// The definition of the env key under the cursor in PHP source, found without an index of symbols.
pub fn resolve_env_definition_fallback(
    env_files: &Vec<EnvFile>,
    content: &str,
    position: Position,
) -> (r: Option<Location>)
    requires
        php::is_addressable(content@),
    ensures
        ({
            let offset = location::offset_at(content@, position) as u32;
            match env_key_among(php::php_expressions(content@), content@, offset as int) {
                Some(key) => location::is_place(
                    r,
                    if search::occurs(content@, "env("@) {
                        key_definition(env_files@, key)
                    } else {
                        None
                    },
                ),
                None => r is None,
            }
        }),
{
    if !search::contains_text(content, "env(") {
        return None;
    }
    let cursor_offset = location::position_to_offset(content, position) as usize;
    match find_env_usage_at_cursor(content, cursor_offset) {
        Some(key) => resolve_env_key_definition(env_files, key.as_str()),
        None => None,
    }
}

/// The line that is found declares the key, and no line before it does.
proof fn lemma_declaring_line(ls: Seq<Seq<char>>, key: Seq<char>, i: int)
    requires
        0 <= i <= ls.len(),
    ensures
        i <= declaring_line(ls, key, i) <= ls.len(),
        declaring_line(ls, key, i) < ls.len() ==> declares_key(
            ls[declaring_line(ls, key, i)],
            key,
        ),
        forall|j: int|
            i <= j < declaring_line(ls, key, i) ==> !declares_key(#[trigger] ls[j], key),
    decreases ls.len() - i,
{
    if i < ls.len() && !declares_key(ls[i], key) {
        lemma_declaring_line(ls, key, i + 1);
    }
}

/// The line at which a key is found declares it, and is the first that does.
pub proof fn law_found_line_declares_key(content: Seq<char>, key: Seq<char>)
    requires
        lines::lines_of(content).len() <= u32::MAX,
    ensures
        ({
            let ls = lines::lines_of(content);
            match key_position(content, key) {
                Some(p) => {
                    &&& p.line < ls.len()
                    &&& p.character == 0
                    &&& declares_key(ls[p.line as int], key)
                    &&& forall|j: int| 0 <= j < p.line ==> !declares_key(#[trigger] ls[j], key)
                },
                None => forall|j: int| 0 <= j < ls.len() ==> !declares_key(#[trigger] ls[j], key),
            }
        }),
{
    lemma_declaring_line(lines::lines_of(content), key, 0);
}

/// A line declares the key that is read from it.
proof fn lemma_declared_key(line: Seq<char>)
    requires
        declared_key(line) is Some,
    ensures
        declares_key(line, declared_key(line)->0),
{
    let entry = lines::trimmed_start(line);
    let equals = text::find_char(entry, '=', 0);
    let named = entry.take(equals);
    let key = declared_key(line)->0;
    lines::lemma_trimmed_start(line);
    text::lemma_find_char(entry, '=', 0);
    lines::lemma_trimmed_start(named);
    lines::lemma_trimmed_end(named);
    if equals > 0 {
        assert(named[0] == entry[0]);
        lines::lemma_trim_to(named, 0);
        assert(named.skip(0) =~= named);
    }
    let n = key.len() as int;
    assert(key == named.take(n));
    assert(key =~= entry.take(n));
    let behind = entry.skip(n);
    assert(behind[equals - n] == '=');
    assert forall|i: int| 0 <= i < equals - n implies lines::is_white_space(
        #[trigger] behind[i],
    ) by {
        assert(behind[i] == named[n + i]);
    }
    lines::lemma_trim_to(behind, equals - n);
    assert(behind.skip(equals - n)[0] == '=');
}

/// The key under the cursor in an env file is found there: at the cursor's line or before it.
pub proof fn law_key_under_cursor_is_found(content: Seq<char>, line: int)
    requires
        0 <= line <= u32::MAX,
        key_at_line(content, line) is Some,
    ensures
        ({
            let key = key_at_line(content, line)->0;
            key_position(content, key) matches Some(p) && p.line <= line && declares_key(
                lines::lines_of(content)[p.line as int],
                key,
            )
        }),
{
    let ls = lines::lines_of(content);
    lemma_declared_key(ls[line]);
    lemma_declaring_line(ls, key_at_line(content, line)->0, 0);
}

/// Where a key has a definition, that is the first of its declarations.
proof fn lemma_definition_is_declaration(fs: Seq<EnvFile>, key: Seq<char>)
    requires
        key_definition(fs, key) is Some,
    ensures
        key_declarations(fs, key).len() > 0,
        key_declarations(fs, key)[0] == key_definition(fs, key)->0,
    decreases fs.len(),
{
    lemma_declarations_first(fs[0], fs.drop_first(), key);
    assert(fs =~= seq![fs[0]] + fs.drop_first());
    if key_declaration(fs[0], key) is None {
        lemma_definition_is_declaration(fs.drop_first(), key);
    }
}

/// Whether the first file that declares the key, if there is one, has a URI.
pub open spec fn first_declarer_has_uri(fs: Seq<EnvFile>, key: Seq<char>) -> bool
    decreases fs.len(),
{
    if fs.len() == 0 {
        true
    } else {
        match fs[0] {
            EnvFile::Text { uri, content } => if key_position(content@, key) is Some {
                uri is Some
            } else {
                first_declarer_has_uri(fs.drop_first(), key)
            },
            _ => first_declarer_has_uri(fs.drop_first(), key),
        }
    }
}

/// The definition of a key is the first of its declarations, and there is none exactly if there are
/// no declarations. Only where the first file that declares the key has no URI, and a later one has,
/// is there a declaration and no definition.
pub proof fn law_definition_is_first_declaration(fs: Seq<EnvFile>, key: Seq<char>)
    requires
        first_declarer_has_uri(fs, key) || key_declarations(fs, key).len() == 0,
    ensures
        key_definition(fs, key) == (if key_declarations(fs, key).len() == 0 {
            None
        } else {
            Some(key_declarations(fs, key)[0])
        }),
    decreases fs.len(),
{
    if key_definition(fs, key) is Some {
        lemma_definition_is_declaration(fs, key);
    } else if fs.len() > 0 && key_declarations(fs, key).len() > 0 {
        lemma_declarations_first(fs[0], fs.drop_first(), key);
        assert(fs =~= seq![fs[0]] + fs.drop_first());
        law_definition_is_first_declaration(fs.drop_first(), key);
    }
}

/// Where every file with text has a URI, as the files of a project do, the definition of a key is the
/// first of its declarations, and there is none exactly if there are no declarations.
pub proof fn law_definition_among_files_with_uris(fs: Seq<EnvFile>, key: Seq<char>)
    requires
        forall|i: int|
            0 <= i < fs.len() ==> ((#[trigger] fs[i]) matches EnvFile::Text { uri, .. }
                ==> uri is Some),
    ensures
        key_definition(fs, key) == (if key_declarations(fs, key).len() == 0 {
            None
        } else {
            Some(key_declarations(fs, key)[0])
        }),
{
    lemma_uris_known(fs, key);
    law_definition_is_first_declaration(fs, key);
}

/// Where every file with text has a URI, so has the first that declares a key.
proof fn lemma_uris_known(fs: Seq<EnvFile>, key: Seq<char>)
    requires
        forall|i: int|
            0 <= i < fs.len() ==> ((#[trigger] fs[i]) matches EnvFile::Text { uri, .. }
                ==> uri is Some),
    ensures
        first_declarer_has_uri(fs, key),
    decreases fs.len(),
{
    if fs.len() > 0 {
        let rest = fs.drop_first();
        assert forall|i: int| 0 <= i < rest.len() implies ((#[trigger] rest[i]) matches
            EnvFile::Text { uri, .. } ==> uri is Some) by {
            assert(rest[i] == fs[i + 1]);
        }
        lemma_uris_known(rest, key);
    }
}

/// The declaration in the first file comes before all others.
proof fn lemma_declarations_first(f: EnvFile, rest: Seq<EnvFile>, key: Seq<char>)
    ensures
        key_declarations(seq![f] + rest, key) == (match key_declaration(f, key) {
            Some(place) => seq![place],
            None => Seq::empty(),
        }) + key_declarations(rest, key),
    decreases rest.len(),
{
    let all = seq![f] + rest;
    if rest.len() == 0 {
        assert(all.drop_last() =~= Seq::empty());
        assert(all.last() == f);
        assert(key_declarations(all.drop_last(), key) =~= Seq::empty());
    } else {
        lemma_declarations_first(f, rest.drop_last(), key);
        assert(all.drop_last() =~= seq![f] + rest.drop_last());
        assert(all.last() == rest.last());
    }
    assert(key_declarations(all, key) =~= (match key_declaration(f, key) {
        Some(place) => seq![place],
        None => Seq::empty(),
    }) + key_declarations(rest, key));
}

/// The references without the declarations are those with them, up to where the declarations begin.
pub proof fn law_declarations_come_last(
    files: Seq<IndexedFile>,
    env_files: Seq<EnvFile>,
    key: Seq<char>,
)
    ensures
        env_references(files, env_files, key, true) == env_references(files, env_files, key, false)
            + key_declarations(env_files, key),
{
    assert(env_references(files, env_files, key, true) =~= env_references(
        files,
        env_files,
        key,
        false,
    ) + key_declarations(env_files, key));
}

/// Whether the expression calls `env()` with the key `key` under the cursor.
pub open spec fn calls_env_at(
    t: php::Tree,
    content: Seq<char>,
    offset: int,
    key: Seq<char>,
) -> bool {
    env_call(t, content) matches Some(c) && c.start <= offset <= c.end && c.text == key
}

/// A key is found exactly where a call of `env()` has its key under the cursor, and it is the key of
/// such a call.
pub proof fn law_found_key_is_called(es: Seq<php::Tree>, content: Seq<char>, offset: int)
    ensures
        match env_key_among(es, content, offset) {
            Some(key) => exists|i: int|
                0 <= i < es.len() && calls_env_at(#[trigger] es[i], content, offset, key),
            None => forall|i: int, key: Seq<char>|
                0 <= i < es.len() ==> !#[trigger] calls_env_at(es[i], content, offset, key),
        },
    decreases es.len(),
{
    if es.len() > 0 {
        let rest = es.drop_first();
        law_found_key_is_called(rest, content, offset);
        match env_key_among(es, content, offset) {
            Some(key) => {
                if calls_env_at(es[0], content, offset, key) {
                } else {
                    let i = choose|i: int|
                        0 <= i < rest.len() && calls_env_at(#[trigger] rest[i], content, offset, key);
                    assert(calls_env_at(es[i + 1], content, offset, key));
                }
            },
            None => {
                assert forall|i: int, key: Seq<char>| 0 <= i < es.len() implies !#[trigger]
                    calls_env_at(es[i], content, offset, key) by {
                    if i > 0 {
                        assert(es[i] == rest[i - 1]);
                    }
                }
            },
        }
    }
}

/// No usage of a key is listed twice.
pub proof fn law_usages_differ(
    files: Seq<IndexedFile>,
    env_files: Seq<EnvFile>,
    key: Seq<char>,
)
    ensures
        env_references(files, env_files, key, false).no_duplicates(),
{
    location::law_unique_places_differ(all_usages(files, key));
    assert(env_references(files, env_files, key, false) =~= location::unique_places(
        all_usages(files, key),
    ));
}

} // verus!
