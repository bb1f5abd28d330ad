//! What holds of all env keys and routes, told from lines, symbols and the nodes of the tree alone.
use vstd::prelude::*;
use vstd::string::*;
use vstd::utf8::*;

use crate::env_vars;
use crate::env_vars::{EnvFile, IndexedFile, LaravelStringKind, SymbolKind, SymbolSpan};
use crate::lines;
use crate::location;
use crate::location_laws;
use crate::php;
use crate::php_calls;
use crate::php_laws;
use crate::route_names;
use crate::text;
use crate::urls;

verus! {

/// Whether the symbol `j` of a file stands at a place and is the argument `key` of `env()`, where the
/// file's URI is a URL and its text is there.
pub open spec fn symbol_is_at(f: IndexedFile, j: int, key: Seq<char>, p: location::Place) -> bool {
    &&& 0 <= j < f.spans@.len()
    &&& f.spans@[j].kind matches SymbolKind::LaravelStringKey { kind, key: k }
    &&& kind == LaravelStringKind::Env
    &&& k@ == key
    &&& f.content is Some
    &&& urls::url_parts(f.uri@) is Some
    &&& p.uri == (urls::url_parts(f.uri@)->0).0
    &&& p.range.start == location::position_at((f.content->0)@, f.spans@[j].start as int)
    &&& p.range.end == location::position_at((f.content->0)@, f.spans@[j].end as int)
}

/// Whether some symbol of some file stands at a place and is the argument `key` of `env()`.
pub open spec fn is_used_at(fs: Seq<IndexedFile>, key: Seq<char>, p: location::Place) -> bool {
    exists|i: int, j: int| 0 <= i < fs.len() && #[trigger] symbol_is_at(fs[i], j, key, p)
}

/// The places among the first symbols of a file.
proof fn lemma_symbol_places(f: IndexedFile, n: int, key: Seq<char>, p: location::Place)
    requires
        0 <= n <= f.spans@.len(),
        f.content is Some,
        urls::url_parts(f.uri@) is Some,
    ensures
        env_vars::symbol_places(
            (urls::url_parts(f.uri@)->0).0,
            (f.content->0)@,
            f.spans@.take(n),
            key,
        ).contains(p) <==> exists|j: int| j < n && #[trigger] symbol_is_at(f, j, key, p),
    decreases n,
{
    let uri = (urls::url_parts(f.uri@)->0).0;
    let content = (f.content->0)@;
    let here = f.spans@.take(n);
    if n > 0 {
        let m = n - 1;
        lemma_symbol_places(f, m, key, p);
        assert(here.drop_last() =~= f.spans@.take(m));
        assert(here.last() == f.spans@[m]);
        let before = env_vars::symbol_places(uri, content, here.drop_last(), key);
        let q = env_vars::symbol_place(uri, content, here.last());
        text::lemma_contains_concat(before, seq![q], p);
        assert(before.push(q) =~= before + seq![q]);
        assert(seq![q][0] == q);
        assert(seq![q].contains(p) <==> p == q);
        assert(symbol_is_at(f, m, key, p) <==> env_vars::is_env_key(here.last(), key) && p == q);
    }
}

/// The places among all files.
proof fn lemma_all_usages(fs: Seq<IndexedFile>, key: Seq<char>, p: location::Place)
    ensures
        env_vars::all_usages(fs, key).contains(p) <==> is_used_at(fs, key, p),
    decreases fs.len(),
{
    if fs.len() > 0 {
        let init = fs.drop_last();
        let n = fs.len() - 1;
        let f = fs[n];
        lemma_all_usages(init, key, p);
        text::lemma_contains_concat(
            env_vars::all_usages(init, key),
            env_vars::file_usages(f, key),
            p,
        );
        if f.content is Some && urls::url_parts(f.uri@) is Some {
            lemma_symbol_places(f, f.spans@.len() as int, key, p);
            assert(f.spans@.take(f.spans@.len() as int) =~= f.spans@);
        }
        if is_used_at(init, key, p) {
            let (i, j) = choose|i: int, j: int|
                0 <= i < init.len() && #[trigger] symbol_is_at(init[i], j, key, p);
            assert(symbol_is_at(fs[i], j, key, p));
        }
        if env_vars::file_usages(f, key).contains(p) {
            let j = choose|j: int| j < f.spans@.len() && #[trigger] symbol_is_at(f, j, key, p);
            assert(symbol_is_at(fs[n], j, key, p));
        }
        if is_used_at(fs, key, p) {
            let (i, j) = choose|i: int, j: int|
                0 <= i < fs.len() && #[trigger] symbol_is_at(fs[i], j, key, p);
            if i < n {
                assert(symbol_is_at(init[i], j, key, p));
            }
        }
    }
}

/// A place is among the references of an env key exactly if some symbol of some file of the project is
/// the key there or, where declarations are wanted, some env file declares the key there.
pub proof fn law_env_references_are_complete(
    files: Seq<IndexedFile>,
    env_files: Seq<EnvFile>,
    key: Seq<char>,
    include_declaration: bool,
    p: location::Place,
)
    ensures
        env_vars::env_references(files, env_files, key, include_declaration).contains(p)
            <==> is_used_at(files, key, p) || (include_declaration && is_declared_at(
            env_files,
            key,
            p,
        )),
{
    let used = env_vars::all_usages(files, key);
    let declared = if include_declaration {
        env_vars::key_declarations(env_files, key)
    } else {
        Seq::empty()
    };
    lemma_all_usages(files, key, p);
    location::law_unique_places_members(used, p);
    text::lemma_contains_concat(location::unique_places(used), declared, p);
    law_env_declarations_are_complete(env_files, key, p);
}

/// Whether the first line of a file that declares the key is the one at a place.
pub open spec fn file_declares_at(f: EnvFile, key: Seq<char>, p: location::Place) -> bool {
    f matches EnvFile::Text { uri: Some(uri), content } && p.uri == uri@ && p.range.start
        == p.range.end && env_vars::key_position(content@, key) == Some(p.range.start)
}

/// Whether some env file declares the key at a place.
pub open spec fn is_declared_at(fs: Seq<EnvFile>, key: Seq<char>, p: location::Place) -> bool {
    exists|i: int| 0 <= i < fs.len() && #[trigger] file_declares_at(fs[i], key, p)
}

/// A place is among the declarations of an env key exactly if some env file that has a URI declares the
/// key there.
pub proof fn law_env_declarations_are_complete(fs: Seq<EnvFile>, key: Seq<char>, p: location::Place)
    ensures
        env_vars::key_declarations(fs, key).contains(p) <==> is_declared_at(fs, key, p),
    decreases fs.len(),
{
    if fs.len() > 0 {
        let init = fs.drop_last();
        let n = fs.len() - 1;
        law_env_declarations_are_complete(init, key, p);
        let before = env_vars::key_declarations(init, key);
        if let Some(q) = env_vars::key_declaration(fs[n], key) {
            text::lemma_contains_concat(before, seq![q], p);
            assert(before.push(q) =~= before + seq![q]);
            assert(seq![q][0] == q);
            assert(seq![q].contains(p) <==> p == q);
            assert(file_declares_at(fs[n], key, q));
            assert(file_declares_at(fs[n], key, p) ==> p == q) by {
                assert(p.range == (location::Range { start: p.range.start, end: p.range.end }));
            }
        } else {
            assert(!file_declares_at(fs[n], key, p));
        }
        if is_declared_at(init, key, p) {
            let i = choose|i: int| 0 <= i < init.len() && #[trigger] file_declares_at(init[i], key, p);
            assert(file_declares_at(fs[i], key, p));
        }
        if is_declared_at(fs, key, p) {
            let i = choose|i: int| 0 <= i < fs.len() && #[trigger] file_declares_at(fs[i], key, p);
            if i < n {
                assert(file_declares_at(init[i], key, p));
            }
        }
    }
}

/// The declarations of an env key come in the order of the files.
pub proof fn law_env_declarations_come_in_order(fs: Seq<EnvFile>, more: Seq<EnvFile>, key: Seq<char>)
    ensures
        env_vars::key_declarations(fs + more, key) == env_vars::key_declarations(fs, key)
            + env_vars::key_declarations(more, key),
    decreases more.len(),
{
    if more.len() == 0 {
        assert(fs + more =~= fs);
        assert(env_vars::key_declarations(fs + more, key) =~= env_vars::key_declarations(fs, key)
            + env_vars::key_declarations(more, key));
    } else {
        law_env_declarations_come_in_order(fs, more.drop_last(), key);
        assert((fs + more).drop_last() =~= fs + more.drop_last());
        assert((fs + more).last() == more.last());
        assert(env_vars::key_declarations(fs + more, key) =~= env_vars::key_declarations(fs, key)
            + env_vars::key_declarations(more, key));
    }
}

/// The usages of an env key come in the order of the files.
pub proof fn law_env_usages_come_in_order(
    fs: Seq<IndexedFile>,
    more: Seq<IndexedFile>,
    key: Seq<char>,
)
    ensures
        env_vars::all_usages(fs + more, key) == env_vars::all_usages(fs, key)
            + env_vars::all_usages(more, key),
    decreases more.len(),
{
    if more.len() == 0 {
        assert(fs + more =~= fs);
        assert(env_vars::all_usages(fs + more, key) =~= env_vars::all_usages(fs, key)
            + env_vars::all_usages(more, key));
    } else {
        law_env_usages_come_in_order(fs, more.drop_last(), key);
        assert((fs + more).drop_last() =~= fs + more.drop_last());
        assert((fs + more).last() == more.last());
        assert(env_vars::all_usages(fs + more, key) =~= env_vars::all_usages(fs, key)
            + env_vars::all_usages(more, key));
    }
}

/// Whether an expression calls `env()`, in any case and with or without a leading backslash, with the
/// string `s` as its first argument.
pub open spec fn calls_env_with(t: php::Tree, content: Seq<char>, s: php::TextSpan) -> bool {
    let call = t.children[0].children[0];
    &&& php_laws::is_function_call(t, call.children[0], call.children[1])
    &&& php_laws::begins_with_string(call.children[1], content, s)
    &&& exists|name: Seq<char>|
        #[trigger] php_laws::is_name(call.children[0], content, name) && (
        php_laws::texts_same_but_case(name, "env"@) || (name.len() > 0 && name[0] == '\\'
            && php_laws::texts_same_but_case(name.skip(1), "env"@)))
}

/// An expression gives an env key exactly if it calls `env()` with that key.
pub proof fn law_env_call_is_first_argument(t: php::Tree, content: Seq<char>, s: php::TextSpan)
    ensures
        env_vars::env_call(t, content) == Some(s) <==> calls_env_with(t, content, s),
{
    let call = t.children[0].children[0];
    let env = "env"@;
    php_laws::law_first_string_is_first_argument(call.children[1], content, s);
    if env_vars::env_call(t, content) == Some(s) {
        let name = php_calls::name_of(call.children[0], content)->0;
        assert(php_laws::is_name(call.children[0], content, name));
        php_laws::law_case_is_all_that_is_ignored(
            encode_utf8(php_calls::unqualified(name)),
            encode_utf8(env),
        );
    }
    if calls_env_with(t, content, s) {
        let name = choose|name: Seq<char>|
            #[trigger] php_laws::is_name(call.children[0], content, name) && (
            php_laws::texts_same_but_case(name, env) || (name.len() > 0 && name[0] == '\\'
                && php_laws::texts_same_but_case(name.skip(1), env)));
        php_laws::law_name_is_text_of_identifier(call.children[0], content, name);
        php_laws::law_case_is_all_that_is_ignored(
            encode_utf8(php_calls::unqualified(name)),
            encode_utf8(env),
        );
        if name.len() > 0 && name[0] == '\\' && php_laws::texts_same_but_case(name, env) {
            lemma_env_has_no_backslash(name);
        }
    }
}

/// What is `env` but for the case of its letters begins with no backslash.
proof fn lemma_env_has_no_backslash(name: Seq<char>)
    requires
        php_laws::texts_same_but_case(name, "env"@),
    ensures
        name.len() > 0 ==> name[0] != '\\',
{
    reveal_strlit("env");
    is_ascii_chars_encode_utf8("env"@);
    let b = encode_utf8(name);
    let e = encode_utf8("env"@);
    assert(same_first(b, e));
    if name.len() > 0 && name[0] == '\\' {
        assert(name =~= seq!['\\'] + name.drop_first());
        text::lemma_encode_concat(seq!['\\'], name.drop_first());
        is_ascii_chars_encode_utf8(seq!['\\']);
        assert(seq!['\\'][0] as u8 == encode_utf8(seq!['\\'])[0]);
        assert(b[0] == 0x5c);
    }
}

/// Whether the first bytes are the same but for the case of a letter.
spec fn same_first(a: Seq<u8>, b: Seq<u8>) -> bool {
    php_laws::same_but_case(a[0], b[0])
}

/// The key that is found is that of the first call of `env()` whose key is under the cursor.
pub proof fn law_first_env_call_under_cursor_decides(
    es: Seq<php::Tree>,
    i: int,
    content: Seq<char>,
    offset: int,
    s: php::TextSpan,
)
    requires
        0 <= i < es.len(),
        calls_env_with(es[i], content, s),
        s.start <= offset <= s.end,
        forall|j: int, u: php::TextSpan|
            0 <= j < i && #[trigger] calls_env_with(es[j], content, u) ==> !(u.start <= offset
                <= u.end),
    ensures
        env_vars::env_key_among(es, content, offset) == Some(s.text),
    decreases i,
{
    law_env_call_is_first_argument(es[0], content, s);
    if i > 0 {
        let rest = es.drop_first();
        if let Some(u) = env_vars::env_call(es[0], content) {
            law_env_call_is_first_argument(es[0], content, u);
            assert(calls_env_with(es[0], content, u));
        }
        assert(rest[i - 1] == es[i]);
        assert forall|j: int, u: php::TextSpan|
            0 <= j < i - 1 && #[trigger] calls_env_with(rest[j], content, u) implies !(u.start
            <= offset <= u.end) by {
            assert(rest[j] == es[j + 1]);
            assert(calls_env_with(es[j + 1], content, u));
        }
        law_first_env_call_under_cursor_decides(rest, i - 1, content, offset, s);
    }
}

/// Where no call of `env()` has its key under the cursor, no key is found.
pub proof fn law_no_env_call_under_cursor(es: Seq<php::Tree>, content: Seq<char>, offset: int)
    requires
        forall|j: int, u: php::TextSpan|
            0 <= j < es.len() && #[trigger] calls_env_with(es[j], content, u) ==> !(u.start
                <= offset <= u.end),
    ensures
        env_vars::env_key_among(es, content, offset) is None,
    decreases es.len(),
{
    if es.len() > 0 {
        let rest = es.drop_first();
        if let Some(u) = env_vars::env_call(es[0], content) {
            law_env_call_is_first_argument(es[0], content, u);
            assert(calls_env_with(es[0], content, u));
        }
        assert forall|j: int, u: php::TextSpan|
            0 <= j < rest.len() && #[trigger] calls_env_with(rest[j], content, u) implies !(u.start
            <= offset <= u.end) by {
            assert(rest[j] == es[j + 1]);
            assert(calls_env_with(es[j + 1], content, u));
        }
        law_no_env_call_under_cursor(rest, content, offset);
    }
}

/// The route is found at the first expression that calls `name()` on anything with the route's name.
pub proof fn law_first_route_declaration_decides(
    es: Seq<php::Tree>,
    i: int,
    content: Seq<char>,
    s: php::TextSpan,
)
    requires
        0 <= i < es.len(),
        php_laws::calls_method_with(es[i], content, "name"@, s),
        forall|j: int, u: php::TextSpan|
            0 <= j < i && #[trigger] php_laws::calls_method_with(es[j], content, "name"@, u)
                ==> u.text != s.text,
    ensures
        route_names::declaration_among(es, content, s.text) == Some(s.start),
    decreases i,
{
    let name = "name"@;
    php_laws::law_method_string_is_first_argument(es[0], content, name, s);
    if i > 0 {
        let rest = es.drop_first();
        if let Some(u) = php_calls::method_string(es[0], content, name) {
            php_laws::law_method_string_is_first_argument(es[0], content, name, u);
            assert(php_laws::calls_method_with(es[0], content, name, u));
        }
        assert(rest[i - 1] == es[i]);
        assert forall|j: int, u: php::TextSpan|
            0 <= j < i - 1 && #[trigger] php_laws::calls_method_with(rest[j], content, name, u)
            implies u.text != s.text by {
            assert(rest[j] == es[j + 1]);
            assert(php_laws::calls_method_with(es[j + 1], content, name, u));
        }
        law_first_route_declaration_decides(rest, i - 1, content, s);
    }
}

/// Where no expression calls `name()` with the route's name, the route is not found.
pub proof fn law_undeclared_route_is_not_found(
    es: Seq<php::Tree>,
    content: Seq<char>,
    target: Seq<char>,
)
    requires
        forall|j: int, u: php::TextSpan|
            0 <= j < es.len() && #[trigger] php_laws::calls_method_with(
                es[j],
                content,
                "name"@,
                u,
            ) ==> u.text != target,
    ensures
        route_names::declaration_among(es, content, target) is None,
    decreases es.len(),
{
    let name = "name"@;
    if es.len() > 0 {
        let rest = es.drop_first();
        if let Some(u) = php_calls::method_string(es[0], content, name) {
            php_laws::law_method_string_is_first_argument(es[0], content, name, u);
            assert(php_laws::calls_method_with(es[0], content, name, u));
        }
        assert forall|j: int, u: php::TextSpan|
            0 <= j < rest.len() && #[trigger] php_laws::calls_method_with(rest[j], content, name, u)
            implies u.text != target by {
            assert(rest[j] == es[j + 1]);
            assert(php_laws::calls_method_with(es[j + 1], content, name, u));
        }
        law_undeclared_route_is_not_found(rest, content, target);
    }
}

/// Whether a line is white space, the key, white space, an equals sign and anything behind it.
pub open spec fn is_declaration_of(
    line: Seq<char>,
    key: Seq<char>,
    before: Seq<char>,
    between: Seq<char>,
    rest: Seq<char>,
) -> bool {
    &&& location_laws::all_space(before)
    &&& location_laws::all_space(between)
    &&& line == before + key + between + seq!['='] + rest
}

/// A line declares a key exactly if the key stands in it between white space, with an equals sign
/// behind it. No line declares a key that begins with white space.
pub proof fn law_declaring_lines(line: Seq<char>, key: Seq<char>)
    ensures
        env_vars::declares_key(line, key) <==> (key.len() > 0 ==> !location_laws::is_unicode_space(
            key[0],
        )) && exists|before: Seq<char>, between: Seq<char>, rest: Seq<char>| #[trigger]
            is_declaration_of(line, key, before, between, rest),
{
    if env_vars::declares_key(line, key) {
        let entry = lines::trimmed_start(line);
        lines::lemma_trimmed_start(line);
        if key.len() > 0 {
            assert(key[0] == entry[0]);
        }
        let n = line.len() - entry.len();
        let before = line.take(n);
        let behind = entry.skip(key.len() as int);
        let ended = lines::trimmed_start(behind);
        lines::lemma_trimmed_start(behind);
        let m = behind.len() - ended.len();
        let between = behind.take(m);
        let rest = ended.skip(1);
        assert(location_laws::all_space(before)) by {
            assert forall|k: int| 0 <= k < before.len() implies location_laws::is_unicode_space(
                #[trigger] before[k],
            ) by {
                assert(before[k] == line[k]);
                assert(lines::is_white_space(line[k]));
            }
        }
        assert(location_laws::all_space(between)) by {
            assert forall|k: int| 0 <= k < between.len() implies location_laws::is_unicode_space(
                #[trigger] between[k],
            ) by {
                assert(between[k] == behind[k]);
                assert(lines::is_white_space(behind[k]));
            }
        }
        assert(entry =~= key + behind);
        assert(behind =~= between + ended);
        assert(ended =~= seq!['='] + rest);
        assert(line =~= before + entry);
        assert(line =~= before + key + between + seq!['='] + rest);
        assert(is_declaration_of(line, key, before, between, rest));
    }
    if exists|before: Seq<char>, between: Seq<char>, rest: Seq<char>| #[trigger]
        is_declaration_of(line, key, before, between, rest) {
        let (before, between, rest) = choose|
            before: Seq<char>,
            between: Seq<char>,
            rest: Seq<char>,
        | #[trigger] is_declaration_of(line, key, before, between, rest);
        let behind = between + (seq!['='] + rest);
        assert(line =~= before + (key + behind));
        location_laws::lemma_trim_start(between, seq!['='] + rest);
        if key.len() == 0 {
            let entry = seq!['='] + rest;
            assert(line =~= (before + between) + entry);
            location_laws::lemma_trim_start(before + between, entry);
            assert(entry =~= Seq::<char>::empty() + entry);
            assert(entry.take(0) =~= key);
            assert(entry.skip(0) =~= entry);
            location_laws::lemma_trim_start(Seq::empty(), entry);
        } else if !location_laws::is_unicode_space(key[0]) {
            location_laws::lemma_trim_start(before, key + behind);
            assert((key + behind).take(key.len() as int) =~= key);
            assert((key + behind).skip(key.len() as int) =~= behind);
        }
    }
}

/// The key of a line that declares one is what stands between the white space at its start and the
/// first equals sign, without the white space around it.
pub proof fn law_key_of_declaring_line(
    key: Seq<char>,
    before: Seq<char>,
    between: Seq<char>,
    rest: Seq<char>,
)
    requires
        location_laws::all_space(before),
        location_laws::all_space(between),
        key.len() > 0,
        !location_laws::is_unicode_space(key[0]) && !location_laws::is_unicode_space(key.last()),
        key[0] != '#',
        !key.contains('='),
    ensures
        env_vars::declared_key(before + key + between + seq!['='] + rest) == Some(key),
{
    let line = before + key + between + seq!['='] + rest;
    let entry = key + between + seq!['='] + rest;
    assert(line =~= before + entry);
    location_laws::lemma_trim_start(before, entry);
    let n = key.len() + between.len();
    assert forall|k: int| 0 <= k < n implies #[trigger] entry[k] != '=' by {
        if k < key.len() {
            assert(entry[k] == key[k]);
            assert(key.contains(key[k]));
        } else {
            assert(entry[k] == between[k - key.len()]);
            assert(location_laws::is_unicode_space(between[k - key.len()]));
        }
    }
    assert(entry[n as int] == '=');
    location_laws::lemma_find(entry, '=', 0, n as int);
    let named = entry.take(n as int);
    assert(named =~= Seq::<char>::empty() + key + between);
    location_laws::law_white_space_around_text_is_trimmed(Seq::empty(), key, between);
}

/// Comment lines, blank lines, lines without an equals sign and lines with nothing before it declare no
/// key.
pub proof fn law_other_lines_declare_no_key(before: Seq<char>, s: Seq<char>)
    requires
        location_laws::all_space(before),
        s.len() > 0 ==> !location_laws::is_unicode_space(s[0]),
        s.len() == 0 || s[0] == '#' || s[0] == '=' || !s.contains('='),
    ensures
        env_vars::declared_key(before + s) is None,
{
    location_laws::lemma_trim_start(before, s);
    if !s.contains('=') {
        assert forall|k: int| 0 <= k < s.len() implies #[trigger] s[k] != '=' by {
            assert(s.contains(s[k]));
        }
        location_laws::lemma_find(s, '=', 0, s.len() as int);
    } else if s[0] == '=' {
        location_laws::lemma_find(s, '=', 0, 0);
        assert(s.take(0) =~= Seq::empty());
        assert(lines::trimmed(s.take(0)) =~= Seq::empty());
    }
}

/// The key under the cursor in an env file is that of the cursor's line, and there is none where the
/// file has no such line.
pub proof fn law_key_is_read_from_line_under_cursor(content: Seq<char>, line: int)
    ensures
        env_vars::key_at_line(content, line) == (if 0 <= line < lines::lines_of(content).len() {
            env_vars::declared_key(lines::lines_of(content)[line])
        } else {
            None
        }),
{
}

/// An env file declares a key at most once.
pub proof fn law_env_file_declares_key_once(f: EnvFile, key: Seq<char>)
    ensures
        env_vars::key_declarations(seq![f], key).len() <= 1,
{
    assert(seq![f].drop_last() =~= Seq::empty());
    assert(env_vars::key_declarations(seq![f].drop_last(), key) =~= Seq::empty());
}

/// Whether an env file has text that does not declare the key, or has no text.
pub open spec fn lacks_key(f: EnvFile, key: Seq<char>) -> bool {
    f matches EnvFile::Text { content, .. } ==> env_vars::key_position(content@, key) is None
}

/// The definition of a key is in the first env file that declares it, whatever files come before, and
/// there is none where that file has no URI.
pub proof fn law_first_env_file_with_key_decides(
    fs: Seq<EnvFile>,
    i: int,
    uri: Option<String>,
    content: String,
    key: Seq<char>,
)
    requires
        0 <= i < fs.len(),
        fs[i] == (EnvFile::Text { uri, content }),
        env_vars::key_position(content@, key) is Some,
        forall|j: int| 0 <= j < i ==> lacks_key(#[trigger] fs[j], key),
    ensures
        match uri {
            Some(u) => env_vars::key_definition(fs, key) matches Some(p) && p.uri == u@
                && p.range.start == env_vars::key_position(content@, key)->0 && p.range.end
                == p.range.start,
            None => env_vars::key_definition(fs, key) is None,
        },
    decreases i,
{
    if i > 0 {
        let rest = fs.drop_first();
        assert(lacks_key(fs[0], key));
        assert(rest[i - 1] == fs[i]);
        assert forall|j: int| 0 <= j < i - 1 implies lacks_key(#[trigger] rest[j], key) by {
            assert(rest[j] == fs[j + 1]);
        }
        law_first_env_file_with_key_decides(rest, i - 1, uri, content, key);
    }
}

/// Where no env file declares a key, it has no definition.
pub proof fn law_key_in_no_env_file(fs: Seq<EnvFile>, key: Seq<char>)
    requires
        forall|j: int| 0 <= j < fs.len() ==> lacks_key(#[trigger] fs[j], key),
    ensures
        env_vars::key_definition(fs, key) is None,
    decreases fs.len(),
{
    if fs.len() > 0 {
        let rest = fs.drop_first();
        assert(lacks_key(fs[0], key));
        assert forall|j: int| 0 <= j < rest.len() implies lacks_key(#[trigger] rest[j], key) by {
            assert(rest[j] == fs[j + 1]);
        }
        law_key_in_no_env_file(rest, key);
    }
}

/// Whether a symbol is the argument `key` of `env()`.
pub open spec fn names_env_key(span: SymbolSpan, key: Seq<char>) -> bool {
    span.kind matches SymbolKind::LaravelStringKey { kind, key: k } && kind == LaravelStringKind::Env
        && k@ == key
}

/// The usages of an env key in a file whose URI is a URL and whose text is there are its symbols with
/// that key, in their order; any other file has none.
pub proof fn law_env_usages_of_file_come_in_order(f: IndexedFile, key: Seq<char>)
    ensures
        env_vars::all_usages(seq![f], key) == (if f.content is Some && urls::url_parts(f.uri@)
            is Some {
            f.spans@.filter(|s: SymbolSpan| names_env_key(s, key)).map_values(
                |s: SymbolSpan|
                    location::Place {
                        uri: (urls::url_parts(f.uri@)->0).0,
                        range: location::Range {
                            start: location::position_at((f.content->0)@, s.start as int),
                            end: location::position_at((f.content->0)@, s.end as int),
                        },
                    },
            )
        } else {
            Seq::empty()
        }),
{
    assert(seq![f].drop_last() =~= Seq::empty());
    assert(seq![f].last() == f);
    assert(env_vars::all_usages(seq![f].drop_last(), key) =~= Seq::empty());
    assert(env_vars::all_usages(seq![f], key) =~= env_vars::file_usages(f, key));
    if f.content is Some && urls::url_parts(f.uri@) is Some {
        lemma_symbol_order(
            (urls::url_parts(f.uri@)->0).0,
            (f.content->0)@,
            f.spans@,
            key,
        );
    }
}

/// The places of symbols come in the order of the symbols.
proof fn lemma_symbol_order(
    uri: Seq<char>,
    content: Seq<char>,
    spans: Seq<SymbolSpan>,
    key: Seq<char>,
)
    ensures
        env_vars::symbol_places(uri, content, spans, key) == spans.filter(
            |s: SymbolSpan| names_env_key(s, key),
        ).map_values(
            |s: SymbolSpan|
                location::Place {
                    uri,
                    range: location::Range {
                        start: location::position_at(content, s.start as int),
                        end: location::position_at(content, s.end as int),
                    },
                },
        ),
    decreases spans.len(),
{
    reveal(Seq::filter);
    let named = |s: SymbolSpan| names_env_key(s, key);
    let place = |s: SymbolSpan|
        location::Place {
            uri,
            range: location::Range {
                start: location::position_at(content, s.start as int),
                end: location::position_at(content, s.end as int),
            },
        };
    if spans.len() > 0 {
        lemma_symbol_order(uri, content, spans.drop_last(), key);
        assert(env_vars::is_env_key(spans.last(), key) == named(spans.last()));
    }
    assert(env_vars::symbol_places(uri, content, spans, key) =~= spans.filter(named).map_values(
        place,
    ));
}

/// The references of an env key are where it is used, each place once, and then, where they are wanted,
/// where it is declared.
pub proof fn law_env_usages_come_before_declarations(
    files: Seq<IndexedFile>,
    env_files: Seq<EnvFile>,
    key: Seq<char>,
)
    ensures
        env_vars::env_references(files, env_files, key, false) == location::unique_places(
            env_vars::all_usages(files, key),
        ),
        env_vars::env_references(files, env_files, key, true) == location::unique_places(
            env_vars::all_usages(files, key),
        ) + env_vars::key_declarations(env_files, key),
{
    assert(env_vars::env_references(files, env_files, key, false) =~= location::unique_places(
        env_vars::all_usages(files, key),
    ));
}

} // verus!
