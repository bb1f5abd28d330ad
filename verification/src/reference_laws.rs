//! What holds of all references and definitions, told from the files of the project alone.
use vstd::prelude::*;
use vstd::string::*;
use vstd::utf8::*;

use crate::config_keys;
use crate::config_keys::KeySpan;
use crate::config_references;
use crate::config_references::ConfigText;
use crate::location;
use crate::location::{DiskFile, SourceFile};
use crate::php;
use crate::route_names;
use crate::text;
use crate::trans_keys;
use crate::trans_keys::LocaleDir;
use crate::urls;
use crate::view_names;
use crate::view_names::ViewFile;

verus! {

/// Whether a place is that of the span `m` in a text at a URI.
pub open spec fn is_place_of(p: location::Place, uri: Seq<char>, content: Seq<char>, m: KeySpan) -> bool {
    &&& p.uri == uri
    &&& p.range.start == location::position_at(content, m.start)
    &&& p.range.end == location::position_at(content, m.end)
}

/// Whether a file whose URI is a URL and whose text is there uses the key at a place.
pub open spec fn file_uses_at(f: SourceFile, key: Seq<char>, p: location::Place) -> bool {
    &&& f.content is Some
    &&& urls::url_parts(f.uri@) is Some
    &&& exists|m: KeySpan|
        config_keys::usages(encode_utf8((f.content->0)@)).contains(m) && m.key == key
            && #[trigger] is_place_of(p, (urls::url_parts(f.uri@)->0).0, (f.content->0)@, m)
}

/// Whether a file below `config/` whose text is there declares the key at a place.
pub open spec fn file_declares_at(f: SourceFile, key: Seq<char>, p: location::Place) -> bool {
    &&& f.content is Some
    &&& urls::url_parts(f.uri@) is Some
    &&& config_keys::config_prefix((urls::url_parts(f.uri@)->0).1) is Some
    &&& exists|m: KeySpan|
        config_keys::declarations(
            encode_utf8((f.content->0)@),
            config_keys::config_prefix((urls::url_parts(f.uri@)->0).1)->0,
        ).contains(m) && m.key == key && #[trigger] is_place_of(
            p,
            (urls::url_parts(f.uri@)->0).0,
            (f.content->0)@,
            m,
        )
}

/// The places of the matches with a key are exactly those of the matches that have it.
proof fn lemma_span_places(
    uri: Seq<char>,
    content: Seq<char>,
    ms: Seq<KeySpan>,
    key: Seq<char>,
    p: location::Place,
)
    ensures
        config_references::span_places(
            uri,
            content,
            config_keys::with_key(ms, Some(key)),
        ).contains(p) <==> exists|m: KeySpan|
            ms.contains(m) && m.key == key && #[trigger] is_place_of(p, uri, content, m),
{
    let wanted = |x: KeySpan| x.key == key;
    let kept = ms.filter(wanted);
    let all = config_references::span_places(uri, content, kept);
    if all.contains(p) {
        let i = all.index_of(p);
        ms.lemma_filter_pred(wanted, i);
        text::lemma_filtered_from(ms, wanted, i);
        let j = choose|j: int| 0 <= j < ms.len() && ms[j] == kept[i];
        assert(ms.contains(kept[i]));
        assert(is_place_of(p, uri, content, kept[i]));
    }
    if exists|m: KeySpan|
        ms.contains(m) && m.key == key && #[trigger] is_place_of(p, uri, content, m) {
        let m = choose|m: KeySpan|
            ms.contains(m) && m.key == key && #[trigger] is_place_of(p, uri, content, m);
        let j = ms.index_of(m);
        ms.lemma_filter_contains(wanted, j);
        let i = kept.index_of(m);
        assert(p.range == (location::Range { start: p.range.start, end: p.range.end }));
        assert(all[i] == p);
    }
}

/// Whether some file can be searched as a document.
spec fn is_from(fs: Seq<SourceFile>, d: ConfigText) -> bool {
    exists|i: int| 0 <= i < fs.len() && config_references::searchable(#[trigger] fs[i]) == Some(d)
}

/// The documents are exactly the files that can be searched.
proof fn lemma_all_searchable(fs: Seq<SourceFile>, d: ConfigText)
    ensures
        config_references::all_searchable(fs).contains(d) <==> is_from(fs, d),
    decreases fs.len(),
{
    if fs.len() > 0 {
        let init = fs.drop_last();
        let n = fs.len() - 1;
        lemma_all_searchable(init, d);
        let before = config_references::all_searchable(init);
        if let Some(x) = config_references::searchable(fs[n]) {
            assert(before.push(x) =~= before + seq![x]);
            text::lemma_contains_concat(before, seq![x], d);
            assert(seq![x][0] == x);
            assert(seq![x].contains(d) <==> d == x);
        }
        if is_from(init, d) {
            let i = choose|i: int|
                0 <= i < init.len() && config_references::searchable(#[trigger] init[i]) == Some(d);
            assert(fs[i] == init[i]);
        }
        if is_from(fs, d) {
            let i = choose|i: int|
                0 <= i < fs.len() && config_references::searchable(#[trigger] fs[i]) == Some(d);
            if i < n {
                assert(init[i] == fs[i]);
            }
        }
    }
}

/// A place is among the references of a configuration key exactly if some file of the project uses the
/// key there or, where declarations are wanted, some configuration file declares it there.
pub proof fn law_references_are_found_in_every_file(
    fs: Seq<SourceFile>,
    key: Seq<char>,
    include_declaration: bool,
    p: location::Place,
)
    ensures
        config_references::reference_places(
            config_references::all_searchable(fs),
            key,
            include_declaration,
        ).contains(p) <==> (exists|i: int|
            0 <= i < fs.len() && file_uses_at(#[trigger] fs[i], key, p)) || (include_declaration
            && exists|i: int| 0 <= i < fs.len() && file_declares_at(#[trigger] fs[i], key, p)),
{
    let ds = config_references::all_searchable(fs);
    config_references::law_references_are_complete(ds, key, include_declaration, p);
    if config_references::is_used_at(ds, key, p) {
        let d = choose|d: int|
            0 <= d < ds.len() && (#[trigger] config_references::usage_places(ds[d], key)).contains(p);
        lemma_all_searchable(fs, ds[d]);
        assert(ds.contains(ds[d]));
        let i = choose|i: int|
            0 <= i < fs.len() && config_references::searchable(#[trigger] fs[i]) == Some(ds[d]);
        lemma_span_places(
            ds[d].uri,
            ds[d].content,
            config_keys::usages(encode_utf8(ds[d].content)),
            key,
            p,
        );
        assert(file_uses_at(fs[i], key, p));
    }
    if config_references::is_declared_at(ds, key, p) {
        let d = choose|d: int|
            0 <= d < ds.len() && (#[trigger] config_references::declaration_places(
                ds[d],
                key,
            )).contains(p);
        lemma_all_searchable(fs, ds[d]);
        assert(ds.contains(ds[d]));
        let i = choose|i: int|
            0 <= i < fs.len() && config_references::searchable(#[trigger] fs[i]) == Some(ds[d]);
        lemma_span_places(
            ds[d].uri,
            ds[d].content,
            config_keys::declarations(encode_utf8(ds[d].content), ds[d].prefix->0),
            key,
            p,
        );
        assert(file_declares_at(fs[i], key, p));
    }
    assert forall|i: int| 0 <= i < fs.len() && file_uses_at(#[trigger] fs[i], key, p) implies
        config_references::is_used_at(ds, key, p) by {
        let x = config_references::searchable(fs[i])->0;
        lemma_all_searchable(fs, x);
        assert(is_from(fs, x));
        let d = ds.index_of(x);
        lemma_span_places(
            x.uri,
            x.content,
            config_keys::usages(encode_utf8(x.content)),
            key,
            p,
        );
        assert(config_references::usage_places(ds[d], key).contains(p));
    }
    assert forall|i: int| 0 <= i < fs.len() && file_declares_at(#[trigger] fs[i], key, p) implies
        config_references::is_declared_at(ds, key, p) by {
        let x = config_references::searchable(fs[i])->0;
        lemma_all_searchable(fs, x);
        assert(is_from(fs, x));
        let d = ds.index_of(x);
        lemma_span_places(
            x.uri,
            x.content,
            config_keys::declarations(encode_utf8(x.content), x.prefix->0),
            key,
            p,
        );
        assert(config_references::declaration_places(ds[d], key).contains(p));
    }
}

/// The documents come in the order of the files.
pub proof fn law_documents_come_in_order(fs: Seq<SourceFile>, more: Seq<SourceFile>)
    ensures
        config_references::all_searchable(fs + more) == config_references::all_searchable(fs)
            + config_references::all_searchable(more),
    decreases more.len(),
{
    if more.len() == 0 {
        assert(fs + more =~= fs);
    } else {
        law_documents_come_in_order(fs, more.drop_last());
        assert((fs + more).drop_last() =~= fs + more.drop_last());
        assert((fs + more).last() == more.last());
    }
    assert(config_references::all_searchable(fs + more) =~= config_references::all_searchable(fs)
        + config_references::all_searchable(more));
}

/// The usages and the declarations of a key come in the order of the documents.
pub proof fn law_places_come_in_order(ds: Seq<ConfigText>, more: Seq<ConfigText>, key: Seq<char>)
    ensures
        config_references::all_usage_places(ds + more, key) == config_references::all_usage_places(
            ds,
            key,
        ) + config_references::all_usage_places(more, key),
        config_references::all_declaration_places(ds + more, key)
            == config_references::all_declaration_places(ds, key)
            + config_references::all_declaration_places(more, key),
    decreases more.len(),
{
    if more.len() == 0 {
        assert(ds + more =~= ds);
    } else {
        law_places_come_in_order(ds, more.drop_last(), key);
        assert((ds + more).drop_last() =~= ds + more.drop_last());
        assert((ds + more).last() == more.last());
    }
    assert(config_references::all_usage_places(ds + more, key)
        =~= config_references::all_usage_places(ds, key) + config_references::all_usage_places(
        more,
        key,
    ));
    assert(config_references::all_declaration_places(ds + more, key)
        =~= config_references::all_declaration_places(ds, key)
        + config_references::all_declaration_places(more, key));
}

/// Whether a path, parted at its slashes, has `config` as one part, a PHP file with the given stem as
/// a later one, and nothing but empty parts behind that.
pub open spec fn lies_below_config(path: Seq<char>, stem: Seq<char>, i: int, j: int) -> bool {
    let parts = text::split_at_char(path, '/');
    &&& 0 <= i < j < parts.len()
    &&& parts[i] == "config"@
    &&& parts[j] == stem + ".php"@
    &&& stem.len() > 0
    &&& forall|k: int| j < k < parts.len() ==> (#[trigger] parts[k]).len() == 0
}

/// A filter for parts that are not empty finds nothing among empty ones.
proof fn lemma_all_empty(s: Seq<Seq<char>>)
    requires
        forall|k: int| 0 <= k < s.len() ==> (#[trigger] s[k]).len() == 0,
    ensures
        s.filter(|x: Seq<char>| x.len() > 0) == Seq::<Seq<char>>::empty(),
    decreases s.len(),
{
    reveal(Seq::filter);
    if s.len() > 0 {
        let init = s.drop_last();
        assert forall|k: int| 0 <= k < init.len() implies (#[trigger] init[k]).len() == 0 by {
            assert(init[k] == s[k]);
        }
        lemma_all_empty(init);
        assert(s[s.len() - 1].len() == 0);
    }
    assert(s.filter(|x: Seq<char>| x.len() > 0) =~= Seq::<Seq<char>>::empty());
}

/// What remains of parts whose last that is not empty is the one at `j`.
proof fn lemma_segments(parts: Seq<Seq<char>>, j: int)
    requires
        0 <= j < parts.len(),
        parts[j].len() > 0,
        forall|k: int| j < k < parts.len() ==> (#[trigger] parts[k]).len() == 0,
    ensures
        ({
            let keep = |x: Seq<char>| x.len() > 0;
            let segments = parts.filter(keep);
            &&& segments.len() > 0
            &&& segments.last() == parts[j]
            &&& segments.drop_last() == parts.take(j).filter(keep)
        }),
{
    let keep = |x: Seq<char>| x.len() > 0;
    let (head, tail) = (parts.take(j), parts.skip(j + 1));
    assert(parts =~= head + (seq![parts[j]] + tail));
    Seq::filter_distributes_over_add(head, seq![parts[j]] + tail, keep);
    text::lemma_filter_first(parts[j], tail, keep);
    assert forall|k: int| 0 <= k < tail.len() implies (#[trigger] tail[k]).len() == 0 by {
        assert(tail[k] == parts[j + 1 + k]);
    }
    lemma_all_empty(tail);
    assert(parts.filter(keep) =~= head.filter(keep).push(parts[j]));
    assert(parts.filter(keep).drop_last() =~= head.filter(keep));
}

/// The last part that is not empty.
proof fn lemma_last_segment(parts: Seq<Seq<char>>, n: int) -> (j: int)
    requires
        0 <= n <= parts.len(),
        forall|k: int| n <= k < parts.len() ==> (#[trigger] parts[k]).len() == 0,
    ensures
        -1 <= j < n,
        j >= 0 ==> parts[j].len() > 0,
        forall|k: int| j < k < parts.len() ==> (#[trigger] parts[k]).len() == 0,
    decreases n,
{
    if n == 0 || parts[n - 1].len() > 0 {
        n - 1
    } else {
        lemma_last_segment(parts, n - 1)
    }
}

/// A path gives its file's stem as a prefix exactly if the file is PHP and lies somewhere below a
/// directory `config`.
pub proof fn law_prefix_is_stem_below_config(path: Seq<char>, stem: Seq<char>)
    ensures
        config_keys::config_prefix(path) == Some(stem) <==> exists|i: int, j: int| #[trigger]
            lies_below_config(path, stem, i, j),
{
    let parts = text::split_at_char(path, '/');
    let keep = |x: Seq<char>| x.len() > 0;
    let segments = parts.filter(keep);
    reveal_strlit(".php");
    reveal_strlit("config");
    if config_keys::config_prefix(path) == Some(stem) {
        let j = lemma_last_segment(parts, parts.len() as int);
        if j < 0 {
            lemma_all_empty(parts);
        }
        lemma_segments(parts, j);
        let file = parts[j];
        let head = parts.take(j);
        let n = head.filter(keep).index_of("config"@);
        text::lemma_filtered_from(head, keep, n);
        let i = choose|i: int| 0 <= i < head.len() && head[i] == head.filter(keep)[n];
        assert(parts[i] == "config"@);
        assert(file =~= stem + ".php"@) by {
            assert(".php"@ == file.subrange(file.len() - 4, file.len() as int));
            assert(file =~= file.take(file.len() - 4) + file.subrange(
                file.len() - 4,
                file.len() as int,
            ));
        }
        assert(lies_below_config(path, stem, i, j));
    }
    if exists|i: int, j: int| #[trigger] lies_below_config(path, stem, i, j) {
        let (i, j) = choose|i: int, j: int| #[trigger] lies_below_config(path, stem, i, j);
        lemma_segments(parts, j);
        let head = parts.take(j);
        assert(head[i] == "config"@);
        head.lemma_filter_contains(keep, i);
        let file = parts[j];
        assert(file.subrange(file.len() - 4, file.len() as int) =~= ".php"@);
        assert(file.take(file.len() - 4) =~= stem);
    }
}

/// A view's name leads to a template with slashes for its dots, first as a Blade template and then as
/// plain PHP.
pub proof fn law_view_templates(name: Seq<char>)
    ensures
        ({
            let path = view_names::view_path(name);
            &&& path.len() == name.len()
            &&& forall|i: int|
                0 <= i < name.len() ==> #[trigger] path[i] == (if name[i] == '.' {
                    '/'
                } else {
                    name[i]
                })
            &&& view_names::view_files(name) == seq![path + ".blade.php"@, path + ".php"@]
        }),
{
}

/// The first template that is there decides, and the definition is its top.
pub proof fn law_first_template_decides(fs: Seq<ViewFile>, i: int)
    requires
        0 <= i < fs.len(),
        fs[i] is Present,
        forall|j: int| 0 <= j < i ==> (#[trigger] fs[j]) is Missing,
    ensures
        fs[i] matches ViewFile::Present { uri } && match uri {
            Some(u) => view_names::view_definition(fs) matches Some(p) && p.uri == u@
                && p.range.start.line == 0 && p.range.start.character == 0 && p.range.end
                == p.range.start,
            None => view_names::view_definition(fs) is None,
        },
    decreases i,
{
    if i > 0 {
        let rest = fs.drop_first();
        assert(fs[0] is Missing);
        assert(rest[i - 1] == fs[i]);
        assert forall|j: int| 0 <= j < i - 1 implies (#[trigger] rest[j]) is Missing by {
            assert(rest[j] == fs[j + 1]);
        }
        law_first_template_decides(rest, i - 1);
    }
}

/// Whether a route file can be read and does not declare the route.
pub open spec fn lacks_route(f: DiskFile, name: Seq<char>) -> bool {
    f.uri is Some && f.content is Some && route_names::declaration_among(
        php::php_expressions((f.content->0)@),
        (f.content->0)@,
        name,
    ) is None
}

/// The definition of a route is in the first file that declares it, however many files come before.
pub proof fn law_first_file_with_route_decides(fs: Seq<DiskFile>, i: int, name: Seq<char>, start: int)
    requires
        0 <= i < fs.len(),
        fs[i].uri is Some && fs[i].content is Some,
        route_names::declaration_among(
            php::php_expressions((fs[i].content->0)@),
            (fs[i].content->0)@,
            name,
        ) == Some(start),
        forall|j: int| 0 <= j < i ==> lacks_route(#[trigger] fs[j], name),
    ensures
        route_names::route_definition(fs, name) matches Some(p) && p.uri == (fs[i].uri->0)@
            && p.range.start == location::position_at((fs[i].content->0)@, start) && p.range.end
            == p.range.start,
    decreases i,
{
    if i > 0 {
        let rest = fs.drop_first();
        assert(lacks_route(fs[0], name));
        assert(rest[i - 1] == fs[i]);
        assert forall|j: int| 0 <= j < i - 1 implies lacks_route(#[trigger] rest[j], name) by {
            assert(rest[j] == fs[j + 1]);
        }
        law_first_file_with_route_decides(rest, i - 1, name, start);
    }
}

/// Where no file declares a route, it has no definition.
pub proof fn law_route_in_no_file(fs: Seq<DiskFile>, name: Seq<char>)
    requires
        forall|j: int| 0 <= j < fs.len() ==> lacks_route(#[trigger] fs[j], name),
    ensures
        route_names::route_definition(fs, name) is None,
    decreases fs.len(),
{
    if fs.len() > 0 {
        let rest = fs.drop_first();
        assert(lacks_route(fs[0], name));
        assert forall|j: int| 0 <= j < rest.len() implies lacks_route(#[trigger] rest[j], name) by {
            assert(rest[j] == fs[j + 1]);
        }
        law_route_in_no_file(rest, name);
    }
}

/// The definition of a translation key is below the first language directory that has one.
pub proof fn law_first_language_directory_decides(
    bases: Seq<Vec<LocaleDir>>,
    i: int,
    key: Seq<char>,
)
    requires
        0 <= i < bases.len(),
        trans_keys::base_definition(bases[i]@, text::key_stem(key), key) is Some,
        forall|j: int|
            0 <= j < i ==> trans_keys::base_definition(
                (#[trigger] bases[j])@,
                text::key_stem(key),
                key,
            ) is None,
    ensures
        trans_keys::trans_definition(bases, key) == trans_keys::base_definition(
            bases[i]@,
            text::key_stem(key),
            key,
        ),
    decreases i,
{
    if i > 0 {
        let rest = bases.drop_first();
        assert(trans_keys::base_definition(bases[0]@, text::key_stem(key), key) is None);
        assert(rest[i - 1] == bases[i]);
        assert forall|j: int| 0 <= j < i - 1 implies trans_keys::base_definition(
            (#[trigger] rest[j])@,
            text::key_stem(key),
            key,
        ) is None by {
            assert(rest[j] == bases[j + 1]);
        }
        law_first_language_directory_decides(rest, i - 1, key);
    }
}

/// A directory with the file gives the place of the key in it, and one whose file has no URI or cannot
/// be read gives nothing.
pub proof fn law_translation_file_gives_place(l: LocaleDir, stem: Seq<char>, key: Seq<char>)
    requires
        l.file is Some,
    ensures
        ({
            let f = l.file->0;
            let found = trans_keys::first_definition(seq![l], stem, key);
            if f.uri is Some && f.content is Some {
                found matches Some(p) && p.uri == (f.uri->0)@ && p.range.start
                    == trans_keys::key_position(
                    (f.content->0)@,
                    trans_keys::file_keys((f.content->0)@, stem),
                    key,
                ) && p.range.end == p.range.start
            } else {
                found is None
            }
        }),
{
    assert(seq![l][0] == l);
}

/// Only a directory called `en` is that of English.
pub proof fn law_english_is_called_en(l: LocaleDir)
    ensures
        trans_keys::is_english(l) <==> l.name is Some && (l.name->0)@ == seq!['e', 'n'],
{
    reveal_strlit("en");
    assert("en"@ =~= seq!['e', 'n']);
}

/// A route file that has no URI or cannot be read ends the search for a route.
pub proof fn law_unreadable_route_file_ends_search(fs: Seq<DiskFile>, i: int, name: Seq<char>)
    requires
        0 <= i < fs.len(),
        fs[i].uri is None || fs[i].content is None,
        forall|j: int| 0 <= j < i ==> lacks_route(#[trigger] fs[j], name),
    ensures
        route_names::route_definition(fs, name) is None,
    decreases i,
{
    if i > 0 {
        let rest = fs.drop_first();
        assert(lacks_route(fs[0], name));
        assert(rest[i - 1] == fs[i]);
        assert forall|j: int| 0 <= j < i - 1 implies lacks_route(#[trigger] rest[j], name) by {
            assert(rest[j] == fs[j + 1]);
        }
        law_unreadable_route_file_ends_search(rest, i - 1, name);
    }
}

/// Where no template is there, a view has no definition.
pub proof fn law_view_without_template(fs: Seq<ViewFile>)
    requires
        forall|j: int| 0 <= j < fs.len() ==> (#[trigger] fs[j]) is Missing,
    ensures
        view_names::view_definition(fs) is None,
    decreases fs.len(),
{
    if fs.len() > 0 {
        assert(fs[0] is Missing);
        law_view_without_template(fs.drop_first());
    }
}

/// Where no language directory has a place for a translation key, the key has no definition.
pub proof fn law_key_below_no_language_directory(bases: Seq<Vec<LocaleDir>>, key: Seq<char>)
    requires
        forall|j: int|
            0 <= j < bases.len() ==> trans_keys::base_definition(
                (#[trigger] bases[j])@,
                text::key_stem(key),
                key,
            ) is None,
    ensures
        trans_keys::trans_definition(bases, key) is None,
    decreases bases.len(),
{
    if bases.len() > 0 {
        let rest = bases.drop_first();
        assert(trans_keys::base_definition(bases[0]@, text::key_stem(key), key) is None);
        assert forall|j: int| 0 <= j < rest.len() implies trans_keys::base_definition(
            (#[trigger] rest[j])@,
            text::key_stem(key),
            key,
        ) is None by {
            assert(rest[j] == bases[j + 1]);
        }
        law_key_below_no_language_directory(rest, key);
    }
}

/// Where no locale has the file of a translation key, the key has no definition below that directory.
pub proof fn law_language_directory_without_file(ls: Seq<LocaleDir>, stem: Seq<char>, key: Seq<char>)
    requires
        forall|j: int| 0 <= j < ls.len() ==> (#[trigger] ls[j]).file is None,
    ensures
        trans_keys::base_definition(ls, stem, key) is None,
{
    let ordered = trans_keys::english_first(ls);
    trans_keys::law_english_first_permutes(ls);
    assert forall|j: int| 0 <= j < ordered.len() implies (#[trigger] ordered[j]).file is None by {
        ordered.to_multiset_ensures();
        ls.to_multiset_ensures();
        assert(ordered.contains(ordered[j]));
        assert(ordered.to_multiset().count(ordered[j]) > 0);
        assert(ls.contains(ordered[j]));
    }
    lemma_no_file(ordered, stem, key);
}

/// Directories without the file give nothing.
proof fn lemma_no_file(ls: Seq<LocaleDir>, stem: Seq<char>, key: Seq<char>)
    requires
        forall|j: int| 0 <= j < ls.len() ==> (#[trigger] ls[j]).file is None,
    ensures
        trans_keys::first_definition(ls, stem, key) is None,
    decreases ls.len(),
{
    if ls.len() > 0 {
        assert(ls[0].file is None);
        lemma_no_file(ls.drop_first(), stem, key);
    }
}

/// The keys of a document have a prefix exactly if its URI is a URL whose path lies below a directory
/// `config`.
pub proof fn law_prefix_comes_from_path_of_uri(uri: Seq<char>, stem: Seq<char>)
    ensures
        config_keys::uri_prefix(uri) == Some(stem) <==> urls::url_parts(uri) is Some && exists|
            i: int,
            j: int,
        | #[trigger] lies_below_config((urls::url_parts(uri)->0).1, stem, i, j),
{
    if let Some((_, path)) = urls::url_parts(uri) {
        law_prefix_is_stem_below_config(path, stem);
    }
}

/// The directories come with those called `en` in front, and otherwise in their order.
pub proof fn law_english_comes_first(ls: Seq<LocaleDir>)
    ensures
        trans_keys::english_first(ls) == ls.filter(
            |l: LocaleDir| l.name is Some && (l.name->0)@ == seq!['e', 'n'],
        ) + ls.filter(|l: LocaleDir| !(l.name is Some && (l.name->0)@ == seq!['e', 'n'])),
{
    let yes = |l: LocaleDir| l.name is Some && (l.name->0)@ == seq!['e', 'n'];
    let no = |l: LocaleDir| !(l.name is Some && (l.name->0)@ == seq!['e', 'n']);
    assert forall|l: LocaleDir| #[trigger] trans_keys::is_english(l) == yes(l) by {
        law_english_is_called_en(l);
    }
    assert(yes =~= (|l: LocaleDir| trans_keys::is_english(l)));
    assert(no =~= (|l: LocaleDir| !trans_keys::is_english(l)));
}

/// A file is searched once, under the URI that its URL is written as, exactly if its URI is a URL and its
/// text is there.
pub proof fn law_file_is_searched_once(f: SourceFile)
    ensures
        config_references::all_searchable(seq![f]).len() == (if f.content is Some
            && urls::url_parts(f.uri@) is Some {
            1nat
        } else {
            0
        }),
        f.content is Some && urls::url_parts(f.uri@) is Some ==> {
            let d = config_references::all_searchable(seq![f])[0];
            let (href, path) = urls::url_parts(f.uri@)->0;
            d.uri == href && d.content == (f.content->0)@ && d.prefix == config_keys::config_prefix(
                path,
            )
        },
{
    assert(seq![f].drop_last() =~= Seq::empty());
    assert(config_references::all_searchable(seq![f].drop_last()) =~= Seq::empty());
    assert(seq![f].last() == f);
}

/// The place of a span is that of its start and its end in the text.
pub open spec fn place_of(d: ConfigText, m: KeySpan) -> location::Place {
    location::Place {
        uri: d.uri,
        range: location::Range {
            start: location::position_at(d.content, m.start),
            end: location::position_at(d.content, m.end),
        },
    }
}

/// The usages of a key in a document are those of its usages that have the key, in the order of the
/// source; so are its declarations, which only a document with a prefix has.
pub proof fn law_places_of_document_come_in_order(d: ConfigText, key: Seq<char>)
    ensures
        config_references::all_usage_places(seq![d], key) == config_keys::usages(
            encode_utf8(d.content),
        ).filter(|m: KeySpan| m.key == key).map_values(|m: KeySpan| place_of(d, m)),
        config_references::all_declaration_places(seq![d], key) == (match d.prefix {
            Some(p) => config_keys::declarations(encode_utf8(d.content), p).filter(
                |m: KeySpan| m.key == key,
            ).map_values(|m: KeySpan| place_of(d, m)),
            None => Seq::empty(),
        }),
{
    assert(seq![d].drop_last() =~= Seq::empty());
    assert(seq![d].last() == d);
    assert(config_references::all_usage_places(seq![d].drop_last(), key) =~= Seq::empty());
    assert(config_references::all_declaration_places(seq![d].drop_last(), key) =~= Seq::empty());
    assert(config_references::all_usage_places(seq![d], key) =~= config_keys::usages(
        encode_utf8(d.content),
    ).filter(|m: KeySpan| m.key == key).map_values(|m: KeySpan| place_of(d, m)));
    if let Some(p) = d.prefix {
        assert(config_references::all_declaration_places(seq![d], key)
            =~= config_keys::declarations(encode_utf8(d.content), p).filter(
            |m: KeySpan| m.key == key,
        ).map_values(|m: KeySpan| place_of(d, m)));
    }
}

/// The references of a key are where it is used, each place once, and then, where they are wanted, the
/// declarations that are not among these.
pub proof fn law_usages_come_before_declarations(ds: Seq<ConfigText>, key: Seq<char>)
    ensures
        config_references::reference_places(ds, key, false) == location::unique_places(
            config_references::all_usage_places(ds, key),
        ),
        config_references::reference_places(ds, key, true) == location::unique_places(
            config_references::all_usage_places(ds, key)
                + config_references::all_declaration_places(ds, key),
        ),
{
    assert(config_references::all_usage_places(ds, key) + Seq::empty()
        =~= config_references::all_usage_places(ds, key));
}

/// The definition of a configuration key is the first place in its file that declares it, or the top of
/// the file where none does.
pub proof fn law_first_declaration_is_definition(
    content: Seq<char>,
    prefix: Seq<char>,
    key: Seq<char>,
    i: int,
)
    ensures
        ({
            let ds = config_keys::declarations(encode_utf8(content), prefix);
            let p = config_references::definition_position(content, prefix, key);
            &&& 0 <= i < ds.len() && ds[i].key == key && (forall|j: int|
                0 <= j < i ==> (#[trigger] ds[j]).key != key) ==> p == location::position_at(
                content,
                ds[i].start,
            )
            &&& (forall|j: int| 0 <= j < ds.len() ==> (#[trigger] ds[j]).key != key) ==> p.line == 0
                && p.character == 0
        }),
{
    let ds = config_keys::declarations(encode_utf8(content), prefix);
    let wanted = |m: KeySpan| m.key == key;
    if 0 <= i < ds.len() && ds[i].key == key && (forall|j: int|
        0 <= j < i ==> (#[trigger] ds[j]).key != key) {
        lemma_first_kept(ds, wanted, i);
    }
    if forall|j: int| 0 <= j < ds.len() ==> (#[trigger] ds[j]).key != key {
        if ds.filter(wanted).len() > 0 {
            let m = ds.filter(wanted)[0];
            assert(ds.filter(wanted).contains(m));
            ds.lemma_filter_contains_rev(wanted, m);
            ds.lemma_filter_pred(wanted, 0);
            let j = choose|j: int| 0 <= j < ds.len() && ds[j] == m;
            assert(ds[j].key != key);
        }
    }
}

/// The first item that a filter lets through comes first.
proof fn lemma_first_kept(ms: Seq<KeySpan>, p: spec_fn(KeySpan) -> bool, i: int)
    requires
        0 <= i < ms.len(),
        p(ms[i]),
        forall|j: int| 0 <= j < i ==> !p(#[trigger] ms[j]),
    ensures
        ms.filter(p).len() > 0,
        ms.filter(p)[0] == ms[i],
    decreases i,
{
    let rest = ms.drop_first();
    assert(ms =~= seq![ms[0]] + rest);
    text::lemma_filter_first(ms[0], rest, p);
    if i > 0 {
        assert(!p(ms[0]));
        assert(rest[i - 1] == ms[i]);
        assert forall|j: int| 0 <= j < i - 1 implies !p(#[trigger] rest[j]) by {
            assert(rest[j] == ms[j + 1]);
        }
        lemma_first_kept(rest, p, i - 1);
    }
}

} // verus!
