//! Named routes: `route('name')` and the `->name('name')` that declares it.
use vstd::prelude::*;
use vstd::string::*;

use crate::location;
use crate::location::{DiskFile, Location};
use crate::php;
use crate::php::PhpNode;
use crate::php_calls;
use crate::text;

verus! {

/// Where the first of the expressions that declares the route `target` names it.
pub open spec fn declaration_among(es: Seq<php::Tree>, content: Seq<char>, target: Seq<char>) -> Option<
    int,
>
    decreases es.len(),
{
    if es.len() == 0 {
        None
    } else {
        match php_calls::method_string(es[0], content, "name"@) {
            Some(name) => if name.text == target {
                Some(name.start)
            } else {
                declaration_among(es.drop_first(), content, target)
            },
            None => declaration_among(es.drop_first(), content, target),
        }
    }
}

/// Where a file whose expressions are given declares the route `target`.
pub open spec fn declaration_place(
    es: Seq<php::Tree>,
    content: Seq<char>,
    target: Seq<char>,
    uri: Seq<char>,
) -> Option<location::Place> {
    match declaration_among(es, content, target) {
        Some(start) => Some(location::point(uri, location::position_at(content, start))),
        None => None,
    }
}

/// Where the first of the files that declares the route `name` does so. A file without a URI, or one
/// that cannot be read, ends the search.
pub open spec fn route_definition(fs: Seq<DiskFile>, name: Seq<char>) -> Option<location::Place>
    decreases fs.len(),
{
    if fs.len() == 0 {
        None
    } else {
        match fs[0] {
            DiskFile { uri: Some(uri), content: Some(content) } => match declaration_place(
                php::php_expressions(content@),
                content@,
                name,
                uri@,
            ) {
                Some(place) => Some(place),
                None => route_definition(fs.drop_first(), name),
            },
            _ => None,
        }
    }
}

/// Whether every text among the files can be parsed.
pub open spec fn all_addressable(fs: Seq<DiskFile>) -> bool {
    forall|i: int|
        0 <= i < fs.len() ==> match (#[trigger] fs[i]).content {
            Some(content) => php::is_addressable(content@),
            None => true,
        }
}

/// The directory, below the project's root, that routes are declared in.
pub fn routes_dir_name() -> (r: String)
    ensures
        r@ == "routes"@,
{
    "routes".to_owned()
}

/// Whether a file name's extension is that of PHP source.
pub fn is_php_extension(extension: Option<&str>) -> (r: bool)
    ensures
        r == (extension matches Some(e) && e@ == "php"@),
{
    match extension {
        Some(e) => text::str_eq(e, "php"),
        None => false,
    }
}

/// The declaration `->name('target')` in a syntax tree.
pub fn find_route_name_in_tree(root: &PhpNode, content: &str, target: &str, uri: &str) -> (r: Option<
    Location,
>)
    ensures
        location::is_place(
            r,
            declaration_place(php::expressions(root.tree()), content@, target@, uri@),
        ),
{
    let nodes = php::list_expressions(root);
    let ghost es = php::trees_of(nodes@);
    let mut k: usize = 0;
    assert(es.skip(0) =~= es);
    while k < nodes.len()
        invariant
            k <= nodes@.len(),
            es == php::trees_of(nodes@),
            es == php::expressions(root.tree()),
            declaration_among(es.skip(k as int), content@, target@) == declaration_among(
                es,
                content@,
                target@,
            ),
        decreases nodes@.len() - k,
    {
        assert(es.skip(k as int)[0] == nodes@[k as int].tree());
        assert(es.skip(k as int).drop_first() =~= es.skip(k + 1));
        if let Some((name, start, _)) = php_calls::method_string_argument(
            nodes[k],
            content,
            "name",
        ) {
            if text::str_eq(name, target) {
                let position = location::offset_to_position(content, start);
                return Some(location::point_location(uri.to_owned(), position));
            }
        }
        k += 1;
    }
    assert(es.skip(k as int).len() == 0);
    None
}

/// The declaration `->name('target')` in PHP source.
pub fn find_route_name_decl(content: &str, target: &str, uri: &str) -> (r: Option<Location>)
    requires
        php::is_addressable(content@),
    ensures
        location::is_place(
            r,
            declaration_place(php::php_expressions(content@), content@, target@, uri@),
        ),
{
    match php::parse_tree(content) {
        Some(root) => find_route_name_in_tree(&root, content, target, uri),
        None => None,
    }
}

/// The declaration of the route `name`, given the PHP files directly inside `routes/`.
pub fn resolve_route_definition(files: &Vec<DiskFile>, name: &str) -> (r: Option<Location>)
    requires
        all_addressable(files@),
    ensures
        location::is_place(r, route_definition(files@, name@)),
{
    let ghost fs = files@;
    let mut k: usize = 0;
    assert(fs.skip(0) =~= fs);
    while k < files.len()
        invariant
            k <= files@.len(),
            fs == files@,
            all_addressable(fs),
            route_definition(fs.skip(k as int), name@) == route_definition(fs, name@),
        decreases files@.len() - k,
    {
        assert(fs.skip(k as int)[0] == fs[k as int]);
        assert(fs.skip(k as int).drop_first() =~= fs.skip(k + 1));
        match (&files[k].uri, &files[k].content) {
            (Some(uri), Some(content)) => {
                let found = find_route_name_decl(content.as_str(), name, uri.as_str());
                if found.is_some() {
                    return found;
                }
            },
            _ => {
                return None;
            },
        }
        k += 1;
    }
    assert(fs.skip(k as int).len() == 0);
    None
}

/// Whether the expression declares the route `target`, with its name at `start`.
pub open spec fn declares_route(
    t: php::Tree,
    content: Seq<char>,
    target: Seq<char>,
    start: int,
) -> bool {
    php_calls::method_string(t, content, "name"@) matches Some(name) && name.text == target
        && name.start == start
}

/// A declaration is found exactly if some expression declares the route, and it is one of those.
pub proof fn law_found_route_is_declared(es: Seq<php::Tree>, content: Seq<char>, target: Seq<char>)
    ensures
        match declaration_among(es, content, target) {
            Some(start) => exists|i: int|
                0 <= i < es.len() && declares_route(#[trigger] es[i], content, target, start),
            None => forall|i: int, start: int|
                0 <= i < es.len() ==> !#[trigger] declares_route(es[i], content, target, start),
        },
    decreases es.len(),
{
    if es.len() > 0 {
        let rest = es.drop_first();
        law_found_route_is_declared(rest, content, target);
        match declaration_among(es, content, target) {
            Some(start) => {
                if !declares_route(es[0], content, target, start) {
                    let i = choose|i: int|
                        0 <= i < rest.len() && declares_route(
                            #[trigger] rest[i],
                            content,
                            target,
                            start,
                        );
                    assert(declares_route(es[i + 1], content, target, start));
                }
            },
            None => {
                assert forall|i: int, start: int| 0 <= i < es.len() implies !#[trigger]
                    declares_route(es[i], content, target, start) by {
                    if i > 0 {
                        assert(es[i] == rest[i - 1]);
                    }
                }
            },
        }
    }
}

} // verus!
