//! References and definitions of configuration keys across a project.
use vstd::prelude::*;
use vstd::string::*;
use vstd::utf8::*;

use crate::config_keys;
use crate::config_keys::{
    collect_laravel_config_declarations, config_key_at_cursor, config_prefix_from_path,
    find_laravel_config_usage_at_cursor, scan_laravel_config_usages, ConfigKeyMatch, KeySpan,
};
use crate::location;
use crate::location::{DiskFile, Location, Position, SourceFile};
use crate::order;
use crate::text;
use crate::urls;

verus! {

/// A document to search: where it is, the prefix of the keys that it declares, and its text.
#[derive(Debug, Clone, PartialEq, Eq)]
pub struct ConfigSource {
    pub uri: String,
    pub prefix: Option<String>,
    pub content: String,
}

/// A document to search, as characters.
pub struct ConfigText {
    pub uri: Seq<char>,
    pub prefix: Option<Seq<char>>,
    pub content: Seq<char>,
}

impl View for ConfigSource {
    type V = ConfigText;

    open spec fn view(&self) -> ConfigText {
        ConfigText {
            uri: self.uri@,
            prefix: match self.prefix {
                Some(p) => Some(p@),
                None => None,
            },
            content: self.content@,
        }
    }
}

/// The views of a list of documents.
pub open spec fn config_texts(v: Seq<ConfigSource>) -> Seq<ConfigText> {
    v.map_values(|s: ConfigSource| s@)
}

/// Where a span of a document is.
pub open spec fn span_place(uri: Seq<char>, content: Seq<char>, m: KeySpan) -> location::Place {
    location::Place {
        uri,
        range: location::Range {
            start: location::position_at(content, m.start),
            end: location::position_at(content, m.end),
        },
    }
}

/// Where the spans `ms` of a document are.
pub open spec fn span_places(uri: Seq<char>, content: Seq<char>, ms: Seq<KeySpan>) -> Seq<
    location::Place,
> {
    ms.map_values(|m: KeySpan| span_place(uri, content, m))
}

/// Where a document uses `key`.
pub open spec fn usage_places(d: ConfigText, key: Seq<char>) -> Seq<location::Place> {
    span_places(d.uri, d.content, config_keys::with_key(config_keys::usages(encode_utf8(d.content)), Some(key)))
}

/// Where a document declares `key`.
pub open spec fn declaration_places(d: ConfigText, key: Seq<char>) -> Seq<location::Place> {
    match d.prefix {
        Some(p) => span_places(
            d.uri,
            d.content,
            config_keys::with_key(config_keys::declarations(encode_utf8(d.content), p), Some(key)),
        ),
        None => Seq::empty(),
    }
}

/// Where the documents use `key`, one document after the other.
pub open spec fn all_usage_places(ds: Seq<ConfigText>, key: Seq<char>) -> Seq<location::Place>
    decreases ds.len(),
{
    if ds.len() == 0 {
        Seq::empty()
    } else {
        all_usage_places(ds.drop_last(), key) + usage_places(ds.last(), key)
    }
}

/// Where the documents declare `key`, one document after the other.
pub open spec fn all_declaration_places(ds: Seq<ConfigText>, key: Seq<char>) -> Seq<location::Place>
    decreases ds.len(),
{
    if ds.len() == 0 {
        Seq::empty()
    } else {
        all_declaration_places(ds.drop_last(), key) + declaration_places(ds.last(), key)
    }
}

/// Where `key` is used, and then, if wanted, where it is declared, each place once.
pub open spec fn reference_places(
    ds: Seq<ConfigText>,
    key: Seq<char>,
    include_declaration: bool,
) -> Seq<location::Place> {
    location::unique_places(
        all_usage_places(ds, key) + (if include_declaration {
            all_declaration_places(ds, key)
        } else {
            Seq::empty()
        }),
    )
}

/// A file as a document to search, if its URI is a URL and its content is there.
pub open spec fn searchable(f: SourceFile) -> Option<ConfigText> {
    match (urls::url_parts(f.uri@), f.content) {
        (Some((href, path)), Some(content)) => Some(
            ConfigText { uri: href, prefix: config_keys::config_prefix(path), content: content@ },
        ),
        _ => None,
    }
}

/// The files that can be searched, as documents.
pub open spec fn all_searchable(fs: Seq<SourceFile>) -> Seq<ConfigText>
    decreases fs.len(),
{
    if fs.len() == 0 {
        Seq::empty()
    } else {
        match searchable(fs.last()) {
            Some(d) => all_searchable(fs.drop_last()).push(d),
            None => all_searchable(fs.drop_last()),
        }
    }
}

/// Adds the places of the matches `ms` with the key `key` that are not there yet.
fn add_matches(
    locations: &mut Vec<Location>,
    Ghost(seen): Ghost<Seq<location::Place>>,
    uri: &str,
    content: &str,
    ms: &Vec<ConfigKeyMatch>,
    key: &str,
)
    requires
        location::places(old(locations)@) == location::unique_places(seen),
    ensures
        location::places(final(locations)@) == location::unique_places(
            seen + span_places(uri@, content@, config_keys::with_key(config_keys::spans(ms@), Some(key@))),
        ),
{
    let ghost wanted = |m: KeySpan| m.key == key@;
    let ghost all = config_keys::spans(ms@);
    let mut k: usize = 0;
    proof {
        reveal(Seq::filter);
        assert(all.take(0) =~= Seq::empty());
        assert(seen + span_places(uri@, content@, all.take(0).filter(wanted)) =~= seen);
    }
    while k < ms.len()
        invariant
            k <= ms@.len(),
            all == config_keys::spans(ms@),
            wanted == (|m: KeySpan| m.key == key@),
            location::places(locations@) == location::unique_places(
                seen + span_places(uri@, content@, all.take(k as int).filter(wanted)),
            ),
        decreases ms@.len() - k,
    {
        let m = &ms[k];
        let ghost before = all.take(k as int).filter(wanted);
        proof {
            reveal(Seq::filter);
            assert(all.take(k + 1).drop_last() =~= all.take(k as int));
            assert(all.take(k + 1).last() == m@);
        }
        if text::str_eq(m.key.as_str(), key) {
            let start = location::offset_to_position(content, m.start);
            let end = location::offset_to_position(content, m.end);
            location::push_unique_location(locations, uri, start, end);
            proof {
                let p = location::Place { uri: uri@, range: location::Range { start, end } };
                location::lemma_unique_push(seen + span_places(uri@, content@, before), p);
                assert(seen + span_places(uri@, content@, before.push(m@)) =~= (seen + span_places(
                    uri@,
                    content@,
                    before,
                )).push(p));
            }
        }
        k += 1;
    }
    assert(all.take(k as int) =~= all);
}

/// Where the documents use `target_key` and, if wanted, where they declare it.
pub fn search_config_sources(
    sources: &Vec<ConfigSource>,
    target_key: &str,
    include_declaration: bool,
) -> (r: Vec<Location>)
    ensures
        location::places(r@) == reference_places(
            config_texts(sources@),
            target_key@,
            include_declaration,
        ),
{
    let ghost ds = config_texts(sources@);
    let ghost key = target_key@;
    let mut locations: Vec<Location> = Vec::new();
    let mut k: usize = 0;
    proof {
        assert(ds.take(0) =~= Seq::empty());
        assert(location::places(locations@) =~= Seq::empty());
        assert(all_usage_places(ds.take(0), key) =~= Seq::empty());
    }
    while k < sources.len()
        invariant
            k <= sources@.len(),
            ds == config_texts(sources@),
            key == target_key@,
            location::places(locations@) == location::unique_places(
                all_usage_places(ds.take(k as int), key),
            ),
        decreases sources@.len() - k,
    {
        let source = &sources[k];
        let found = scan_laravel_config_usages(source.content.as_str(), None);
        add_matches(
            &mut locations,
            Ghost(all_usage_places(ds.take(k as int), key)),
            source.uri.as_str(),
            source.content.as_str(),
            &found,
            target_key,
        );
        proof {
            assert(ds.take(k + 1).drop_last() =~= ds.take(k as int));
            assert(ds.take(k + 1).last() == source@);
        }
        k += 1;
    }
    assert(ds.take(k as int) =~= ds);
    if !include_declaration {
        assert(all_usage_places(ds, key) + Seq::<location::Place>::empty() =~= all_usage_places(
            ds,
            key,
        ));
        return locations;
    }
    let ghost used = all_usage_places(ds, key);
    let mut j: usize = 0;
    proof {
        assert(ds.take(0) =~= Seq::empty());
        assert(used + all_declaration_places(ds.take(0), key) =~= used);
    }
    while j < sources.len()
        invariant
            j <= sources@.len(),
            ds == config_texts(sources@),
            key == target_key@,
            used == all_usage_places(ds, key),
            location::places(locations@) == location::unique_places(
                used + all_declaration_places(ds.take(j as int), key),
            ),
        decreases sources@.len() - j,
    {
        let source = &sources[j];
        let ghost seen = used + all_declaration_places(ds.take(j as int), key);
        proof {
            assert(ds.take(j + 1).drop_last() =~= ds.take(j as int));
            assert(ds.take(j + 1).last() == source@);
        }
        match &source.prefix {
            Some(prefix) => {
                let found = collect_laravel_config_declarations(
                    source.content.as_str(),
                    prefix.as_str(),
                );
                add_matches(
                    &mut locations,
                    Ghost(seen),
                    source.uri.as_str(),
                    source.content.as_str(),
                    &found,
                    target_key,
                );
                proof {
                    assert(seen + declaration_places(source@, key) =~= used
                        + all_declaration_places(ds.take(j + 1), key));
                }
            },
            None => {
                assert(seen =~= used + all_declaration_places(ds.take(j + 1), key));
            },
        }
        j += 1;
    }
    assert(ds.take(j as int) =~= ds);
    locations
}

/// All references of a configuration key across the project: its usages and, if wanted, its
/// declarations in `config/*.php`.
pub fn find_all_config_references(
    files: &Vec<SourceFile>,
    target_key: &str,
    include_declaration: bool,
) -> (r: Vec<Location>)
    ensures
        location::places(r@) == reference_places(
            all_searchable(files@),
            target_key@,
            include_declaration,
        ),
{
    let mut sources: Vec<ConfigSource> = Vec::new();
    let mut k: usize = 0;
    proof {
        assert(files@.take(0) =~= Seq::empty());
        assert(config_texts(sources@) =~= all_searchable(files@.take(0)));
    }
    while k < files.len()
        invariant
            k <= files@.len(),
            config_texts(sources@) == all_searchable(files@.take(k as int)),
        decreases files@.len() - k,
    {
        let ghost before = sources@;
        proof {
            assert(files@.take(k + 1).drop_last() =~= files@.take(k as int));
            assert(files@.take(k + 1).last() == files@[k as int]);
        }
        if let Some((href, path)) = urls::parse_url(files[k].uri.as_str()) {
            if let Some(content) = &files[k].content {
                sources.push(
                    ConfigSource {
                        uri: href,
                        prefix: config_prefix_from_path(path.as_str()),
                        content: content.clone(),
                    },
                );
                proof {
                    assert(config_texts(sources@) =~= config_texts(before).push(
                        sources@.last()@,
                    ));
                    assert(searchable(files@[k as int]) == Some(sources@.last()@));
                }
            }
        }
        k += 1;
    }
    assert(files@.take(k as int) =~= files@);
    search_config_sources(&sources, target_key, include_declaration)
}

/// All references of the configuration key under the cursor, sorted by URI, line and column.
///
/// `None` where no key is under the cursor or nothing refers to it.
pub fn find_config_references(
    files: &Vec<SourceFile>,
    uri: &str,
    content: &str,
    position: Position,
    include_declaration: bool,
) -> (r: Option<Vec<Location>>)
    ensures
        ({
            let offset = location::offset_at(content@, position) as u32;
            match config_keys::key_under_cursor(
                content.spec_bytes(),
                config_keys::uri_prefix(uri@),
                offset as int,
            ) {
                Some(key) => {
                    let found = reference_places(all_searchable(files@), key, include_declaration);
                    match r {
                        Some(l) => found.len() > 0 && order::is_stable_sort_of(
                            location::places(l@),
                            found,
                        ),
                        None => found.len() == 0,
                    }
                },
                None => r is None,
            }
        }),
{
    let cursor_offset = location::position_to_offset(content, position) as usize;
    match config_key_at_cursor(uri, content, cursor_offset) {
        Some(target_key) => {
            let locations = find_all_config_references(
                files,
                target_key.as_str(),
                include_declaration,
            );
            assert(location::places(locations@).len() == locations@.len());
            if locations.len() == 0 {
                return None;
            }
            Some(order::sort_locations(&locations))
        },
        None => None,
    }
}

/// A configuration key and the name, without `.php`, of the file in `config/` that declares it.
#[derive(Debug, Clone, PartialEq, Eq)]
pub struct ConfigTarget {
    pub key: String,
    pub file_stem: String,
}

/// The directory, below the project's root, that configuration files are in.
pub fn config_dir_name() -> (r: String)
    ensures
        r@ == "config"@,
{
    "config".to_owned()
}

/// The configuration key that is used under the cursor, and the file that should declare it.
pub fn config_target_at_cursor(content: &str, position: Position) -> (r: Option<ConfigTarget>)
    ensures
        ({
            let offset = location::offset_at(content@, position) as u32;
            match config_keys::first_covering(
                config_keys::usages(content.spec_bytes()),
                offset as int,
            ) {
                Some(m) => r matches Some(t) && t.key@ == m.key && t.file_stem@ == text::key_stem(m.key),
                None => r is None,
            }
        }),
{
    let cursor_offset = location::position_to_offset(content, position) as usize;
    match find_laravel_config_usage_at_cursor(content, cursor_offset) {
        Some(hit) => {
            let file_stem = text::file_stem_of_key(hit.key.as_str());
            Some(ConfigTarget { key: hit.key, file_stem })
        },
        None => None,
    }
}

/// Where a configuration file with the given prefix declares `key` first, or the start of the file.
pub open spec fn definition_position(
    content: Seq<char>,
    prefix: Seq<char>,
    key: Seq<char>,
) -> Position {
    let found = config_keys::with_key(
        config_keys::declarations(encode_utf8(content), prefix),
        Some(key),
    );
    if found.len() > 0 {
        location::position_at(content, found[0].start)
    } else {
        location::origin()
    }
}

/// Where a configuration file with the given prefix declares `key` first, or the start of the file.
pub fn find_definition_position(content: &str, prefix: &str, key: &str) -> (r: Position)
    ensures
        r == definition_position(content@, prefix@, key@),
{
    let declared = collect_laravel_config_declarations(content, prefix);
    let ghost all = config_keys::spans(declared@);
    let ghost wanted = |m: KeySpan| m.key == key@;
    let mut k: usize = 0;
    proof {
        reveal(Seq::filter);
        assert(all.take(0) =~= Seq::empty());
    }
    while k < declared.len()
        invariant
            k <= declared@.len(),
            all == config_keys::spans(declared@),
            all == config_keys::declarations(encode_utf8(content@), prefix@),
            wanted == (|m: KeySpan| m.key == key@),
            all.take(k as int).filter(wanted).len() == 0,
        decreases declared@.len() - k,
    {
        proof {
            reveal(Seq::filter);
            assert(all.take(k + 1).drop_last() =~= all.take(k as int));
            assert(all.take(k + 1).last() == declared@[k as int]@);
        }
        if text::str_eq(declared[k].key.as_str(), key) {
            proof {
                assert(all =~= all.take(k + 1) + all.skip(k + 1));
                Seq::filter_distributes_over_add(all.take(k + 1), all.skip(k + 1), wanted);
                assert(all.take(k as int).filter(wanted) =~= Seq::empty());
                assert(all.filter(wanted)[0] == declared@[k as int]@);
            }
            return location::offset_to_position(content, declared[k].start);
        }
        k += 1;
    }
    assert(all.take(k as int) =~= all);
    Position { line: 0, character: 0 }
}

/// The declaration of a configuration key in the file that should hold it, or the top of that file
/// where the key is not in it.
///
/// `None` where the file does not exist, has no URI or cannot be read.
pub fn resolve_config_definition(target: &ConfigTarget, file: Option<DiskFile>) -> (r: Option<
    Location,
>)
    ensures
        match file {
            Some(DiskFile { uri: Some(uri), content: Some(content) }) => r matches Some(l) && l@
                == location::point(
                uri@,
                definition_position(content@, target.file_stem@, target.key@),
            ),
            _ => r is None,
        },
{
    match file {
        Some(DiskFile { uri: Some(uri), content: Some(content) }) => {
            let position = find_definition_position(
                content.as_str(),
                target.file_stem.as_str(),
                target.key.as_str(),
            );
            Some(location::point_location(uri, position))
        },
        _ => None,
    }
}

/// The references without the declarations are those with them, up to where the declarations begin.
pub proof fn law_declarations_come_last(ds: Seq<ConfigText>, key: Seq<char>)
    ensures
        reference_places(ds, key, false).is_prefix_of(reference_places(ds, key, true)),
{
    let used = all_usage_places(ds, key);
    assert(used + Seq::<location::Place>::empty() =~= used);
    location::law_unique_places_grow(used, all_declaration_places(ds, key));
}

/// Whether one of the documents uses the key at a place.
pub open spec fn is_used_at(ds: Seq<ConfigText>, key: Seq<char>, p: location::Place) -> bool {
    exists|d: int| 0 <= d < ds.len() && (#[trigger] usage_places(ds[d], key)).contains(p)
}

/// Whether one of the documents declares the key at a place.
pub open spec fn is_declared_at(ds: Seq<ConfigText>, key: Seq<char>, p: location::Place) -> bool {
    exists|d: int| 0 <= d < ds.len() && (#[trigger] declaration_places(ds[d], key)).contains(p)
}

/// A place is a reference exactly if one of the documents uses the key there or, where declarations
/// are wanted, declares it there.
pub proof fn law_references_are_complete(
    ds: Seq<ConfigText>,
    key: Seq<char>,
    include_declaration: bool,
    p: location::Place,
)
    ensures
        reference_places(ds, key, include_declaration).contains(p) <==> is_used_at(ds, key, p) || (
        include_declaration && is_declared_at(ds, key, p)),
{
    let used = all_usage_places(ds, key);
    let declared = if include_declaration {
        all_declaration_places(ds, key)
    } else {
        Seq::empty()
    };
    location::law_unique_places_members(used + declared, p);
    text::lemma_contains_concat(used, declared, p);
    lemma_all_places(ds, key, p);
}

/// No reference is listed twice.
pub proof fn law_references_differ(
    ds: Seq<ConfigText>,
    key: Seq<char>,
    include_declaration: bool,
)
    ensures
        reference_places(ds, key, include_declaration).no_duplicates(),
{
    location::law_unique_places_differ(
        all_usage_places(ds, key) + (if include_declaration {
            all_declaration_places(ds, key)
        } else {
            Seq::empty()
        }),
    );
}

/// The places over all documents are those of each.
proof fn lemma_all_places(ds: Seq<ConfigText>, key: Seq<char>, p: location::Place)
    ensures
        all_usage_places(ds, key).contains(p) <==> is_used_at(ds, key, p),
        all_declaration_places(ds, key).contains(p) <==> is_declared_at(ds, key, p),
    decreases ds.len(),
{
    if ds.len() > 0 {
        let init = ds.drop_last();
        let n = ds.len() - 1;
        lemma_all_places(init, key, p);
        text::lemma_contains_concat(all_usage_places(init, key), usage_places(ds[n], key), p);
        text::lemma_contains_concat(
            all_declaration_places(init, key),
            declaration_places(ds[n], key),
            p,
        );
        if is_used_at(init, key, p) {
            let d = choose|d: int|
                0 <= d < init.len() && (#[trigger] usage_places(init[d], key)).contains(p);
            assert(usage_places(ds[d], key).contains(p));
        }
        if is_declared_at(init, key, p) {
            let d = choose|d: int|
                0 <= d < init.len() && (#[trigger] declaration_places(init[d], key)).contains(p);
            assert(declaration_places(ds[d], key).contains(p));
        }
        if is_used_at(ds, key, p) {
            let d = choose|d: int|
                0 <= d < ds.len() && (#[trigger] usage_places(ds[d], key)).contains(p);
            if d < n {
                assert(usage_places(init[d], key).contains(p));
            }
        }
        if is_declared_at(ds, key, p) {
            let d = choose|d: int|
                0 <= d < ds.len() && (#[trigger] declaration_places(ds[d], key)).contains(p);
            if d < n {
                assert(declaration_places(init[d], key).contains(p));
            }
        }
    }
}

/// The match that is found under the cursor is one of the matches and is under the cursor.
proof fn lemma_first_covering_is_match(ms: Seq<KeySpan>, offset: int)
    requires
        config_keys::first_covering(ms, offset) is Some,
    ensures
        ms.contains(config_keys::first_covering(ms, offset)->0),
        config_keys::covers(config_keys::first_covering(ms, offset)->0, offset),
    decreases ms.len(),
{
    if config_keys::covers(ms[0], offset) {
        assert(ms.contains(ms[0]));
    } else {
        let rest = ms.drop_first();
        lemma_first_covering_is_match(rest, offset);
        let m = config_keys::first_covering(ms, offset)->0;
        let i = rest.index_of(m);
        assert(ms[i + 1] == m);
    }
}

/// The place of a match with the key is among the places of the matches with the key.
proof fn lemma_span_place(
    uri: Seq<char>,
    content: Seq<char>,
    ms: Seq<KeySpan>,
    m: KeySpan,
)
    requires
        ms.contains(m),
    ensures
        span_places(uri, content, config_keys::with_key(ms, Some(m.key))).contains(
            span_place(uri, content, m),
        ),
{
    let key = m.key;
    let wanted = |x: KeySpan| x.key == key;
    let i = ms.index_of(m);
    ms.lemma_filter_contains(wanted, i);
    let kept = ms.filter(wanted);
    let j = kept.index_of(m);
    assert(span_places(uri, content, kept)[j] == span_place(uri, content, m));
}

/// Where a key is asked for from inside of a document that is searched, the place that the cursor is
/// at is among the references, declarations included.
pub proof fn law_references_include_cursor(ds: Seq<ConfigText>, d: int, offset: int)
    requires
        0 <= d < ds.len(),
        config_keys::key_under_cursor(encode_utf8(ds[d].content), ds[d].prefix, offset) is Some,
    ensures
        ({
            let key = config_keys::key_under_cursor(
                encode_utf8(ds[d].content),
                ds[d].prefix,
                offset,
            )->0;
            exists|m: KeySpan|
                config_keys::covers(m, offset) && m.key == key && reference_places(
                    ds,
                    key,
                    true,
                ).contains(#[trigger] span_place(ds[d].uri, ds[d].content, m))
        }),
{
    let doc = ds[d];
    let b = encode_utf8(doc.content);
    let key = config_keys::key_under_cursor(b, doc.prefix, offset)->0;
    let used = config_keys::usages(b);
    let ms = if config_keys::first_covering(used, offset) is Some {
        used
    } else {
        config_keys::declarations(b, doc.prefix->0)
    };
    lemma_first_covering_is_match(ms, offset);
    let m = config_keys::first_covering(ms, offset)->0;
    let p = span_place(doc.uri, doc.content, m);
    lemma_span_place(doc.uri, doc.content, ms, m);
    if config_keys::first_covering(used, offset) is Some {
        assert(usage_places(ds[d], key).contains(p));
        assert(is_used_at(ds, key, p));
    } else {
        assert(declaration_places(ds[d], key).contains(p));
        assert(is_declared_at(ds, key, p));
    }
    law_references_are_complete(ds, key, true, p);
}

/// The definition of a key is where its file declares it first, as it is listed among the references,
/// or the top of the file where it is not declared.
pub proof fn law_definition_is_first_declaration(
    uri: Seq<char>,
    content: Seq<char>,
    prefix: Seq<char>,
    key: Seq<char>,
)
    ensures
        ({
            let declared = declaration_places(
                ConfigText { uri, prefix: Some(prefix), content },
                key,
            );
            definition_position(content, prefix, key) == (if declared.len() > 0 {
                declared[0].range.start
            } else {
                location::origin()
            })
        }),
{
}

} // verus!
