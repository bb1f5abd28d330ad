//! URIs of documents.
use vstd::prelude::*;
use vstd::string::*;
use vstd::utf8::*;

use crate::text;

verus! {

/// What `Url::parse` makes of a URI: the URL as it is written out again and its path, or nothing
/// where the URI is not a URL.
pub uninterp spec fn url_parts(uri: Seq<char>) -> Option<(Seq<char>, Seq<char>)>;

/// Calls `tower_lsp::lsp_types::Url::parse` and reads the URL's serialization (`Url::as_str`) and its
/// path (`Url::path`), percent-encoded as the URL holds it.
///
/// Trusted: that both, and whether the URI is a URL at all, depend on the URI alone.
#[verifier::external_body]
pub(crate) fn parse_url(uri: &str) -> (r: Option<(String, String)>)
    ensures
        match r {
            Some((href, path)) => url_parts(uri@) == Some((href@, path@)),
            None => url_parts(uri@) is None,
        },
{
    match tower_lsp::lsp_types::Url::parse(uri) {
        Ok(url) => Some((url.as_str().to_owned(), url.path().to_owned())),
        Err(_) => None,
    }
}

/// Whether a name stands in a URL as it is: it is not empty, is not the dot that stands for the same
/// directory, and is made of ASCII letters and digits, dots, underscores and hyphens.
pub open spec fn is_plain_name(name: Seq<char>) -> bool {
    &&& name.len() > 0
    &&& name != "."@
    &&& forall|i: int|
        0 <= i < name.len() ==> {
            let c = #[trigger] name[i];
            'a' <= c <= 'z' || 'A' <= c <= 'Z' || '0' <= c <= '9' || c == '.' || c == '_' || c
                == '-'
        }
}

/// Whether `c` parts the names of a path on some system.
pub open spec fn is_separator(c: char) -> bool {
    c == '/' || c == '\\'
}

/// Whether a path begins with two separators, as those that name a server do.
pub open spec fn is_network_path(path: Seq<char>) -> bool {
    path.len() >= 2 && is_separator(path[0]) && is_separator(path[1])
}

/// Whether a path begins with a single slash and holds no backslash: it begins at the root, and slashes
/// alone part its names.
pub open spec fn is_rooted_path(path: Seq<char>) -> bool {
    &&& path.len() > 0
    &&& path[0] == '/'
    &&& !is_network_path(path)
    &&& !path.contains('\\')
}

/// Whether a path is relative on every system: it begins with no separator and names no drive.
pub open spec fn is_relative_path(path: Seq<char>) -> bool {
    &&& path.len() > 0 ==> !is_separator(path[0])
    &&& !path.contains(':')
}

/// Whether a byte of a name stands in a URL as it is: a visible ASCII character other than `"`, `#`,
/// `%`, `/`, `<`, `>`, `?`, `\`, a backtick, `{` and `}`.
pub open spec fn is_kept_byte(b: u8) -> bool {
    &&& 0x21 <= b <= 0x7e
    &&& b != 0x22 && b != 0x23 && b != 0x25 && b != 0x2f && b != 0x3c && b != 0x3e
    &&& b != 0x3f && b != 0x5c && b != 0x60 && b != 0x7b && b != 0x7d
}

/// The hexadecimal digit of a number below sixteen.
pub open spec fn hex_digit(n: int) -> char {
    (if n < 10 {
        0x30 + n
    } else {
        0x37 + n
    }) as char
}

/// The bytes of a name in a URL: those that are not kept become a percent sign and two digits.
pub open spec fn percent_encoded(b: Seq<u8>) -> Seq<char>
    decreases b.len(),
{
    if b.len() == 0 {
        Seq::empty()
    } else {
        (if is_kept_byte(b[0]) {
            seq![b[0] as char]
        } else {
            seq!['%', hex_digit(b[0] as int / 16), hex_digit(b[0] as int % 16)]
        }) + percent_encoded(b.drop_first())
    }
}

/// The names of a path, without the empty ones and the dots that stand for the same directory.
pub open spec fn path_names(path: Seq<char>) -> Seq<Seq<char>> {
    text::split_at_char(path, '/').filter(|name: Seq<char>| name.len() > 0 && name != "."@)
}

/// The names in a URL, with a slash before each.
pub open spec fn slashed(names: Seq<Seq<char>>) -> Seq<char>
    decreases names.len(),
{
    if names.len() == 0 {
        Seq::empty()
    } else {
        seq!['/'] + percent_encoded(encode_utf8(names[0])) + slashed(names.drop_first())
    }
}

/// The URI of the file at a path that begins at the root.
pub open spec fn file_uri(path: Seq<char>) -> Seq<char> {
    "file://"@ + (if path_names(path).len() == 0 {
        "/"@
    } else {
        slashed(path_names(path))
    })
}

/// Whether a URI is what the file at a path has: none where the path is relative; otherwise, where
/// there is one, it begins with `file://`, is the URI of a path that begins at the root, and ends with
/// whatever plain name the path ends with.
pub open spec fn is_file_uri_of(uri: Option<String>, path: Seq<char>) -> bool {
    &&& is_relative_path(path) ==> uri is None
    &&& uri matches Some(u) ==> {
        &&& "file://"@.is_prefix_of(u@)
        &&& is_rooted_path(path) ==> u@ == file_uri(path)
        &&& !is_network_path(path) ==> forall|name: Seq<char>|
            is_plain_name(name) && #[trigger] name.is_suffix_of(path) ==> name.is_suffix_of(u@)
    }
}

/// Calls `tower_lsp::lsp_types::Url::from_file_path` and writes the URL out.
///
/// Trusted: that a path has no URL where it is relative on every system; and, of the URL where the
/// path has one, that it begins with `file://`, that it is `file_uri` of a path that begins at the
/// root, and that it ends with the plain name that the path ends with, since the last component is
/// percent-encoded to its end. Paths that begin with two separators are left out of the last two: on
/// Windows such a path can end with the name of a server, behind which the URL has a slash. Paths with
/// backslashes are left out of the second, since they part names on some systems only. Which of the
/// other paths have a URL differs between operating systems and is not stated, nor is the rest of the
/// URL of a path that begins with a drive or with two separators.
#[verifier::external_body]
fn file_url(path: &str) -> (r: Option<String>)
    ensures
        is_file_uri_of(r, path@),
{
    match tower_lsp::lsp_types::Url::from_file_path(path) {
        Ok(url) => Some(url.as_str().to_owned()),
        Err(_) => None,
    }
}

/// The URI of the file at a path, where the path has one.
pub fn uri_of_path(path: &str) -> (r: Option<String>)
    ensures
        is_file_uri_of(r, path@),
{
    file_url(path)
}

/// Whether a path is a slash and plain names with one slash between two of them.
pub open spec fn is_plain_path(path: Seq<char>) -> bool {
    &&& path.len() > 0
    &&& path[0] == '/'
    &&& forall|i: int|
        0 <= i < text::split_at_char(path.skip(1), '/').len() ==> is_plain_name(
            #[trigger] text::split_at_char(path.skip(1), '/')[i],
        )
}

/// Bytes that are all kept are written as they are.
proof fn lemma_kept_bytes(b: Seq<u8>)
    requires
        forall|i: int| 0 <= i < b.len() ==> is_kept_byte(#[trigger] b[i]),
    ensures
        percent_encoded(b) == b.map_values(|x: u8| x as char),
    decreases b.len(),
{
    let shown = b.map_values(|x: u8| x as char);
    if b.len() > 0 {
        let rest = b.drop_first();
        assert forall|i: int| 0 <= i < rest.len() implies is_kept_byte(#[trigger] rest[i]) by {
            assert(rest[i] == b[i + 1]);
        }
        lemma_kept_bytes(rest);
        assert(is_kept_byte(b[0]));
        assert(percent_encoded(b) =~= shown);
    } else {
        assert(percent_encoded(b) =~= shown);
    }
}

/// A plain name is written as it is.
proof fn lemma_plain_name(name: Seq<char>)
    requires
        is_plain_name(name),
    ensures
        percent_encoded(encode_utf8(name)) == name,
{
    let b = encode_utf8(name);
    assert(is_ascii_chars(name)) by {
        assert forall|i: int| 0 <= i < name.len() implies (name[i] as u32) < 0x80 by {
            let c = name[i];
        }
    }
    is_ascii_chars_encode_utf8(name);
    assert forall|i: int| 0 <= i < b.len() implies is_kept_byte(#[trigger] b[i]) by {
        let c = name[i];
        assert(c as u8 == b[i]);
    }
    lemma_kept_bytes(b);
    assert(percent_encoded(b) =~= name) by {
        assert forall|i: int| 0 <= i < name.len() implies b[i] as char == name[i] by {
            let c = name[i];
            assert(c as u8 == b[i]);
        }
    }
}

/// A filter that lets everything through changes nothing.
proof fn lemma_filter_all(s: Seq<Seq<char>>, p: spec_fn(Seq<char>) -> bool)
    requires
        forall|i: int| 0 <= i < s.len() ==> p(#[trigger] s[i]),
    ensures
        s.filter(p) == s,
    decreases s.len(),
{
    reveal(Seq::filter);
    if s.len() > 0 {
        lemma_filter_all(s.drop_last(), p);
        assert(s =~= s.drop_last().push(s.last()));
    } else {
        assert(s.filter(p) =~= s);
    }
}

/// Plain names that are put together with slashes give the text that was parted at its slashes.
proof fn lemma_slashed_plain(s: Seq<char>)
    requires
        forall|i: int|
            0 <= i < text::split_at_char(s, '/').len() ==> is_plain_name(
                #[trigger] text::split_at_char(s, '/')[i],
            ),
    ensures
        text::split_at_char(s, '/').len() > 0,
        slashed(text::split_at_char(s, '/')) == seq!['/'] + s,
    decreases s.len(),
{
    let parts = text::split_at_char(s, '/');
    let i = text::find_char(s, '/', 0);
    text::lemma_find_char(s, '/', 0);
    assert(is_plain_name(parts[0]));
    lemma_plain_name(parts[0]);
    if i == s.len() {
        assert(parts.drop_first() =~= Seq::empty());
        assert(slashed(parts.drop_first()) =~= Seq::empty());
        assert(slashed(parts) =~= seq!['/'] + s);
    } else {
        let rest = s.skip(i + 1);
        let others = text::split_at_char(rest, '/');
        assert(parts.drop_first() =~= others);
        assert forall|k: int| 0 <= k < others.len() implies is_plain_name(#[trigger] others[k]) by {
            assert(others[k] == parts[k + 1]);
        }
        lemma_slashed_plain(rest);
        assert(s[i] == '/');
        assert(slashed(parts) =~= seq!['/'] + s);
    }
}

/// The URI of a path of plain names is `file://` and the path.
pub proof fn law_plain_path_is_unchanged(path: Seq<char>)
    requires
        is_plain_path(path),
    ensures
        file_uri(path) == "file://"@ + path,
{
    let rest = path.skip(1);
    let parts = text::split_at_char(rest, '/');
    let named = |name: Seq<char>| name.len() > 0 && name != "."@;
    assert(text::find_char(path, '/', 0) == 0);
    assert(text::split_at_char(path, '/') == seq![path.take(0)] + parts);
    text::lemma_filter_first(path.take(0), parts, named);
    assert(!named(path.take(0)));
    lemma_filter_all(parts, named);
    assert(path_names(path) =~= parts);
    lemma_slashed_plain(rest);
    assert(seq!['/'] + rest =~= path);
}

} // verus!
