//! Views: `view('name')` and the template under `resources/views/` that it names.
use vstd::prelude::*;
use vstd::string::*;

use crate::location;
use crate::location::{Location, Position};
use crate::text;
use crate::urls;

verus! {

/// What a look at the path of a template finds. `uri` is there if the path has one.
#[derive(Debug, Clone, PartialEq, Eq)]
pub enum ViewFile {
    Missing,
    Present { uri: Option<String> },
}

/// The name of a view with slashes for its dots.
pub open spec fn view_path(name: Seq<char>) -> Seq<char> {
    name.map_values(
        |c: char|
            if c == '.' {
                '/'
            } else {
                c
            },
    )
}

/// The files, below `resources/views/`, that a view can be in, the one that takes precedence first.
pub open spec fn view_files(name: Seq<char>) -> Seq<Seq<char>> {
    seq![view_path(name) + ".blade.php"@, view_path(name) + ".php"@]
}

/// The top of the first file that is there, unless that file has no URI.
pub open spec fn view_definition(fs: Seq<ViewFile>) -> Option<location::Place>
    decreases fs.len(),
{
    if fs.len() == 0 {
        None
    } else {
        match fs[0] {
            ViewFile::Missing => view_definition(fs.drop_first()),
            ViewFile::Present { uri: Some(uri) } => Some(
                location::point(uri@, location::origin()),
            ),
            ViewFile::Present { uri: None } => None,
        }
    }
}

/// The name of a view with slashes for its dots.
fn slashes_for_dots(name: &str) -> (r: String)
    ensures
        r@ == view_path(name@),
{
    let mut r: String = String::new();
    assert(r@ =~= view_path(name@.take(0)));
    for c in it: name.chars()
        invariant
            it.seq() == name@,
            r@ == view_path(name@.take(it.index() as int)),
    {
        let ghost k = it.index() as int;
        r.push(if c == '.' { '/' } else { c });
        assert(r@ =~= view_path(name@.take(k + 1)));
    }
    assert(name@.take(name@.len() as int) =~= name@);
    r
}

/// The files, below `resources/views/`, that a view can be in, the one that takes precedence first:
/// `components.button` is in `components/button.blade.php`, or else in `components/button.php`.
pub fn view_file_names(name: &str) -> (r: Vec<String>)
    ensures
        text::views(r@) == view_files(name@),
{
    let mut blade = slashes_for_dots(name);
    blade.append(".blade.php");
    let mut plain = slashes_for_dots(name);
    plain.append(".php");
    let mut r: Vec<String> = Vec::new();
    r.push(blade);
    r.push(plain);
    assert(text::views(r@) =~= view_files(name@));
    r
}

/// The directory, below the project's root, that views are in.
pub fn views_dir_name() -> (r: String)
    ensures
        r@ == "resources/views"@,
{
    "resources/views".to_owned()
}

/// What a look at a template found: its URI, and whether a file is there.
pub fn view_file_at(uri: Option<String>, is_file: bool) -> (r: ViewFile)
    ensures
        r == (if is_file {
            ViewFile::Present { uri }
        } else {
            ViewFile::Missing
        }),
{
    if is_file {
        ViewFile::Present { uri }
    } else {
        ViewFile::Missing
    }
}

/// What a look at the path of a template found: whether a file is there.
pub fn view_file(path: &str, is_file: bool) -> (r: ViewFile)
    ensures
        if is_file {
            r matches ViewFile::Present { uri } && urls::is_file_uri_of(uri, path@)
        } else {
            r is Missing
        },
{
    view_file_at(urls::uri_of_path(path), is_file)
}

/// The top of a view's template, given what a look at each of its files found, in the order of their
/// precedence.
pub fn resolve_view_definition(files: &Vec<ViewFile>) -> (r: Option<Location>)
    ensures
        location::is_place(r, view_definition(files@)),
{
    let ghost fs = files@;
    let mut k: usize = 0;
    assert(fs.skip(0) =~= fs);
    while k < files.len()
        invariant
            k <= files@.len(),
            fs == files@,
            view_definition(fs.skip(k as int)) == view_definition(fs),
        decreases files@.len() - k,
    {
        assert(fs.skip(k as int)[0] == fs[k as int]);
        assert(fs.skip(k as int).drop_first() =~= fs.skip(k + 1));
        if let ViewFile::Present { uri } = &files[k] {
            return match uri {
                Some(uri) => Some(
                    location::point_location(uri.clone(), Position { line: 0, character: 0 }),
                ),
                None => None,
            };
        }
        k += 1;
    }
    assert(fs.skip(k as int).len() == 0);
    None
}

} // verus!
