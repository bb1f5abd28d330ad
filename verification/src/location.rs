//! Editor positions and locations.
//!
//! A position counts lines, and within its line UTF-16 code units, both from zero. Lines end at a
//! line feed.
use vstd::prelude::*;
use vstd::string::*;
use vstd::utf8::*;

use crate::text;

verus! {

/// A place in a document.
#[derive(Debug, Clone, Copy, PartialEq, Eq, Structural)]
pub struct Position {
    pub line: u32,
    pub character: u32,
}

/// What lies between two places of a document.
#[derive(Debug, Clone, Copy, PartialEq, Eq, Structural)]
pub struct Range {
    pub start: Position,
    pub end: Position,
}

/// A range of the document at a URI.
#[derive(Debug, Clone, PartialEq, Eq)]
pub struct Location {
    pub uri: String,
    pub range: Range,
}

/// A location with its URI as characters.
pub struct Place {
    pub uri: Seq<char>,
    pub range: Range,
}

impl View for Location {
    type V = Place;

    open spec fn view(&self) -> Place {
        Place { uri: self.uri@, range: self.range }
    }
}

/// The views of a list of locations.
pub open spec fn places(v: Seq<Location>) -> Seq<Place> {
    v.map_values(|l: Location| l@)
}

/// Whether an executable location is at the given place.
pub open spec fn is_place(r: Option<Location>, p: Option<Place>) -> bool {
    match r {
        Some(l) => p == Some(l@),
        None => p is None,
    }
}

/// How many UTF-16 code units encode `c`.
pub open spec fn utf16_width(c: char) -> int {
    if (c as u32) < 0x10000 {
        1
    } else {
        2
    }
}

/// How many line feeds `s` holds.
pub open spec fn line_feeds(s: Seq<char>) -> int
    decreases s.len(),
{
    if s.len() == 0 {
        0
    } else {
        line_feeds(s.drop_last()) + (if s.last() == '\n' {
            1int
        } else {
            0int
        })
    }
}

/// How many UTF-16 code units follow the last line feed of `s`.
pub open spec fn column(s: Seq<char>) -> int
    decreases s.len(),
{
    if s.len() == 0 || s.last() == '\n' {
        0
    } else {
        column(s.drop_last()) + utf16_width(s.last())
    }
}

/// How many characters of `s` start before the byte `offset`.
pub open spec fn chars_before(s: Seq<char>, offset: int) -> int
    decreases s.len(),
{
    if s.len() == 0 || offset <= 0 {
        0
    } else {
        1 + chars_before(s.drop_first(), offset - encode_scalar(s[0] as u32).len())
    }
}

/// The position just behind the characters `s`.
pub open spec fn position_behind(s: Seq<char>) -> Position {
    Position { line: line_feeds(s) as u32, character: column(s) as u32 }
}

/// The position of the byte `offset` of a document.
pub open spec fn position_at(s: Seq<char>, offset: int) -> Position {
    position_behind(s.take(chars_before(s, offset)))
}

/// How many characters lead to the column `character` of the line `line`, or to the end of that
/// line or of the document where it is shorter.
pub open spec fn chars_to(s: Seq<char>, line: int, character: int) -> int
    decreases s.len(),
{
    if s.len() == 0 {
        0
    } else if line > 0 {
        1 + chars_to(
            s.drop_first(),
            if s[0] == '\n' {
                line - 1
            } else {
                line
            },
            character,
        )
    } else if character <= 0 || s[0] == '\n' {
        0
    } else {
        1 + chars_to(s.drop_first(), 0, character - utf16_width(s[0]))
    }
}

/// The byte offset of a position.
pub open spec fn offset_at(s: Seq<char>, position: Position) -> int {
    encode_utf8(s.take(chars_to(s, position.line as int, position.character as int))).len() as int
}

/// The start of a document.
pub open spec fn origin() -> Position {
    Position { line: 0, character: 0 }
}

/// A location at a single place.
pub open spec fn point(uri: Seq<char>, position: Position) -> Place {
    Place { uri, range: Range { start: position, end: position } }
}

/// No more characters start before an offset than there are.
pub proof fn lemma_chars_before(s: Seq<char>, offset: int)
    ensures
        0 <= chars_before(s, offset) <= s.len(),
    decreases s.len(),
{
    if s.len() > 0 && offset > 0 {
        lemma_chars_before(s.drop_first(), offset - encode_scalar(s[0] as u32).len());
    }
}

/// No more characters lead to a place than there are.
pub proof fn lemma_chars_to(s: Seq<char>, line: int, character: int)
    ensures
        0 <= chars_to(s, line, character) <= s.len(),
    decreases s.len(),
{
    if s.len() > 0 {
        lemma_chars_to(s.drop_first(), if s[0] == '\n' {
            line - 1
        } else {
            line
        }, character);
        lemma_chars_to(s.drop_first(), 0, character - utf16_width(s[0]));
    }
}

/// The bytes of a prefix, and the counts taken over it, stay below the bytes of the whole.
proof fn lemma_prefix_counts(s: Seq<char>, k: int)
    requires
        0 <= k <= s.len(),
    ensures
        encode_utf8(s.take(k)).len() <= encode_utf8(s).len(),
        0 <= line_feeds(s.take(k)) <= encode_utf8(s.take(k)).len(),
        0 <= column(s.take(k)) <= encode_utf8(s.take(k)).len(),
    decreases k,
{
    assert(s =~= s.take(k) + s.skip(k));
    text::lemma_encode_concat(s.take(k), s.skip(k));
    if k > 0 {
        lemma_prefix_counts(s, k - 1);
        lemma_take_step(s, k - 1);
    }
}

/// One more character adds its bytes.
proof fn lemma_take_step(s: Seq<char>, k: int)
    requires
        0 <= k < s.len(),
    ensures
        s.take(k + 1).drop_last() == s.take(k),
        s.take(k + 1).last() == s[k],
        encode_utf8(s.take(k + 1)) == encode_utf8(s.take(k)) + encode_scalar(s[k] as u32),
        encode_scalar(s[k] as u32).len() >= utf16_width(s[k]),
{
    assert(s.take(k + 1).drop_last() =~= s.take(k));
    assert(s.take(k + 1) =~= s.take(k) + seq![s[k]]);
    text::lemma_encode_concat(s.take(k), seq![s[k]]);
    assert(seq![s[k]].drop_first() =~= Seq::<char>::empty());
    assert(encode_utf8(seq![s[k]].drop_first()) =~= Seq::<u8>::empty());
    assert(encode_utf8(seq![s[k]]) =~= encode_scalar(s[k] as u32));
}

/// How many bytes encode `c`.
fn utf8_width(c: char) -> (r: usize)
    ensures
        r == encode_scalar(c as u32).len(),
{
    let v = c as u32;
    if v < 0x80 {
        1
    } else if v < 0x800 {
        2
    } else if v < 0x10000 {
        3
    } else {
        4
    }
}

/// The position of the byte `offset`, or of the next character if `offset` falls inside of one.
pub fn offset_to_position(content: &str, offset: usize) -> (r: Position)
    ensures
        r == position_at(content@, offset as int),
{
    let ghost s = content@;
    let b = content.as_bytes();
    let size = b.len();
    let mut left: usize = offset;
    let mut line: usize = 0;
    let mut character: usize = 0;
    assert(s.take(0) =~= Seq::empty());
    assert(s.skip(0) =~= s);
    for c in it: content.chars()
        invariant
            it.seq() == s,
            s == content@,
            b@ == encode_utf8(s),
            b@.len() == size,
            line == line_feeds(s.take(it.index() as int)),
            character == column(s.take(it.index() as int)),
            chars_before(s, offset as int) == it.index() + chars_before(
                s.skip(it.index() as int),
                left as int,
            ),
    {
        let ghost k = it.index() as int;
        if left == 0 {
            assert(chars_before(s, offset as int) == k);
            return Position { line: line as u32, character: character as u32 };
        }
        proof {
            lemma_prefix_counts(s, k + 1);
            lemma_take_step(s, k);
            assert(s.skip(k)[0] == c);
            assert(s.skip(k).drop_first() =~= s.skip(k + 1));
            lemma_chars_before(s.skip(k + 1), left - encode_scalar(c as u32).len());
        }
        let width = utf8_width(c);
        if c == '\n' {
            line += 1;
            character = 0;
        } else if (c as u32) < 0x10000 {
            character += 1;
        } else {
            character += 2;
        }
        if left > width {
            left -= width;
        } else {
            assert(s.skip(k + 1).len() == 0 || chars_before(
                s.skip(k + 1),
                left - width,
            ) == 0);
            left = 0;
        }
    }
    assert(s.take(s.len() as int) =~= s);
    assert(s.skip(s.len() as int).len() == 0);
    Position { line: line as u32, character: character as u32 }
}

/// The byte offset of a position, clamped to the end of its line and to the end of the document.
pub fn position_to_offset(content: &str, position: Position) -> (r: u32)
    ensures
        r == offset_at(content@, position) as u32,
{
    let ghost s = content@;
    let b = content.as_bytes();
    let size = b.len();
    let mut line: u32 = position.line;
    let mut character: u32 = position.character;
    let mut offset: usize = 0;
    let ghost total = chars_to(s, position.line as int, position.character as int);
    assert(s.take(0) =~= Seq::empty());
    assert(s.skip(0) =~= s);
    for c in it: content.chars()
        invariant
            it.seq() == s,
            s == content@,
            b@ == encode_utf8(s),
            b@.len() == size,
            offset == encode_utf8(s.take(it.index() as int)).len(),
            total == chars_to(s, position.line as int, position.character as int),
            total == it.index() + chars_to(s.skip(it.index() as int), line as int, character as int),
    {
        let ghost k = it.index() as int;
        proof {
            assert(s.skip(k)[0] == c);
            assert(s.skip(k).drop_first() =~= s.skip(k + 1));
        }
        if line == 0 && (character == 0 || c == '\n') {
            assert(total == k);
            return offset as u32;
        }
        proof {
            lemma_prefix_counts(s, k + 1);
            lemma_take_step(s, k);
        }
        offset += utf8_width(c);
        if line > 0 {
            if c == '\n' {
                line -= 1;
            }
        } else if (c as u32) < 0x10000 || character == 1 {
            assert(chars_to(s.skip(k + 1), 0, -1) == chars_to(s.skip(k + 1), 0, 0));
            character -= 1;
        } else {
            character -= 2;
        }
    }
    assert(s.skip(s.len() as int).len() == 0);
    offset as u32
}

/// A location at a single place.
pub fn point_location(uri: String, position: Position) -> (r: Location)
    ensures
        r@ == point(uri@, position),
        r.uri == uri,
        r.range.start == position && r.range.end == position,
{
    Location { uri, range: Range { start: position, end: position } }
}

/// A document of the project; its content is missing where it could not be read.
#[derive(Debug, Clone, PartialEq, Eq)]
pub struct SourceFile {
    pub uri: String,
    pub content: Option<String>,
}

/// A file on disk: its URI, unless its path has none, and its content, unless it cannot be read.
#[derive(Debug, Clone, PartialEq, Eq)]
pub struct DiskFile {
    pub uri: Option<String>,
    pub content: Option<String>,
}

/// `places` with `place` behind it, unless it is already there.
pub open spec fn add_place(places: Seq<Place>, place: Place) -> Seq<Place> {
    if places.contains(place) {
        places
    } else {
        places.push(place)
    }
}

/// Each place of `s` once, in the order of the first occurrences.
pub open spec fn unique_places(s: Seq<Place>) -> Seq<Place>
    decreases s.len(),
{
    if s.len() == 0 {
        s
    } else {
        add_place(unique_places(s.drop_last()), s.last())
    }
}

/// Adding one more place after the others have been made unique.
pub proof fn lemma_unique_push(s: Seq<Place>, p: Place)
    ensures
        unique_places(s.push(p)) == add_place(unique_places(s), p),
{
    assert(s.push(p).drop_last() =~= s);
}

/// Appends a location unless an equal one is already in the list.
pub fn push_unique_location(
    locations: &mut Vec<Location>,
    uri: &str,
    start: Position,
    end: Position,
)
    ensures
        places(final(locations)@) == add_place(
            places(old(locations)@),
            Place { uri: uri@, range: Range { start, end } },
        ),
        places(final(locations)@) == (if exists|k: int|
            0 <= k < old(locations)@.len() && (#[trigger] old(locations)@[k]).uri@ == uri@ && old(
                locations,
            )@[k].range == (Range { start, end }) {
            places(old(locations)@)
        } else {
            places(old(locations)@).push(Place { uri: uri@, range: Range { start, end } })
        }),
{
    let range = Range { start, end };
    let ghost before = places(locations@);
    let ghost p = Place { uri: uri@, range };
    let mut k: usize = 0;
    while k < locations.len()
        invariant
            k <= locations@.len(),
            before == places(locations@),
            before == places(old(locations)@),
            locations@ == old(locations)@,
            range == (Range { start, end }),
            p == (Place { uri: uri@, range }),
            forall|j: int| 0 <= j < k ==> before[j] != p,
        decreases locations@.len() - k,
    {
        if locations[k].range == range && text::str_eq(locations[k].uri.as_str(), uri) {
            assert(before[k as int] == p);
            return ;
        }
        assert(before[k as int] == locations@[k as int]@);
        k += 1;
    }
    assert forall|j: int| 0 <= j < old(locations)@.len() implies !((#[trigger] old(
        locations,
    )@[j]).uri@ == uri@ && old(locations)@[j].range == range) by {
        assert(before[j] == old(locations)@[j]@);
    }
    locations.push(Location { uri: uri.to_owned(), range });
    assert(places(locations@) =~= before.push(p));
}

/// The first character counts toward the lines and columns of what it begins.
pub proof fn lemma_first_char(s: Seq<char>, k: int)
    requires
        0 < k <= s.len(),
    ensures
        ({
            let rest = s.drop_first().take(k - 1);
            &&& line_feeds(s.take(k)) == line_feeds(rest) + (if s[0] == '\n' {
                1int
            } else {
                0int
            })
            &&& column(s.take(k)) == column(rest) + (if s[0] == '\n' || line_feeds(rest) > 0 {
                0
            } else {
                utf16_width(s[0])
            })
            &&& line_feeds(rest) >= 0
            &&& column(rest) >= 0
        }),
    decreases k,
{
    let here = s.take(k);
    let rest = s.drop_first().take(k - 1);
    if k == 1 {
        assert(rest =~= Seq::empty());
        assert(here.drop_last() =~= Seq::empty());
        assert(here.last() == s[0]);
    } else {
        lemma_first_char(s, k - 1);
        assert(here.drop_last() =~= s.take(k - 1));
        assert(rest.drop_last() =~= s.drop_first().take(k - 2));
        assert(here.last() == s[k - 1]);
        assert(rest.last() == s[k - 1]);
    }
}

/// The line and the column behind the first `k` characters lead back to them.
proof fn lemma_chars_to_position(s: Seq<char>, k: int)
    requires
        0 <= k <= s.len(),
    ensures
        chars_to(s, line_feeds(s.take(k)), column(s.take(k))) == k,
    decreases s.len(),
{
    if k == 0 {
        assert(s.take(0) =~= Seq::empty());
    } else {
        lemma_first_char(s, k);
        lemma_chars_to_position(s.drop_first(), k - 1);
    }
}

/// The characters before the byte behind the first `k` characters are those.
proof fn lemma_chars_before_offset(s: Seq<char>, k: int)
    requires
        0 <= k <= s.len(),
    ensures
        chars_before(s, encode_utf8(s.take(k)).len() as int) == k,
    decreases s.len(),
{
    if k == 0 {
        assert(s.take(0) =~= Seq::empty());
        assert(encode_utf8(s.take(0)) =~= Seq::empty());
    } else {
        let rest = s.drop_first().take(k - 1);
        assert(s.take(k) =~= seq![s[0]] + rest);
        assert(s.take(k).drop_first() =~= rest);
        assert(encode_utf8(s.take(k)) == encode_scalar(s[0] as u32) + encode_utf8(rest));
        assert(encode_scalar(s[0] as u32).len() > 0);
        lemma_chars_before_offset(s.drop_first(), k - 1);
    }
}

/// Turning the offset of a character into a position, and the position back into an offset, gives the
/// same offset again.
pub proof fn law_position_round_trip(s: Seq<char>, k: int)
    requires
        0 <= k <= s.len(),
        line_feeds(s.take(k)) <= u32::MAX,
        column(s.take(k)) <= u32::MAX,
    ensures
        ({
            let offset = encode_utf8(s.take(k)).len() as int;
            offset_at(s, position_at(s, offset)) == offset
        }),
{
    lemma_chars_before_offset(s, k);
    lemma_chars_to_position(s, k);
    lemma_prefix_counts(s, k);
}

/// Making places unique neither loses a place nor adds one.
pub proof fn law_unique_places_members(s: Seq<Place>, p: Place)
    ensures
        unique_places(s).contains(p) <==> s.contains(p),
    decreases s.len(),
{
    if s.len() > 0 {
        let init = s.drop_last();
        law_unique_places_members(init, p);
        law_unique_places_members(init, s.last());
        assert(s =~= init + seq![s.last()]);
        text::lemma_contains_concat(init, seq![s.last()], p);
        text::lemma_contains_concat(unique_places(init), seq![s.last()], p);
        assert(unique_places(init).push(s.last()) =~= unique_places(init) + seq![s.last()]);
        assert(seq![s.last()].contains(p) ==> p == s.last());
    }
}

/// Among places that were made unique, none comes twice.
pub proof fn law_unique_places_differ(s: Seq<Place>)
    ensures
        unique_places(s).no_duplicates(),
    decreases s.len(),
{
    if s.len() > 0 {
        law_unique_places_differ(s.drop_last());
    }
}

/// More places behind others leave those that are listed where they are.
pub proof fn law_unique_places_grow(s: Seq<Place>, more: Seq<Place>)
    ensures
        unique_places(s).is_prefix_of(unique_places(s + more)),
    decreases more.len(),
{
    if more.len() == 0 {
        assert(s + more =~= s);
    } else {
        law_unique_places_grow(s, more.drop_last());
        assert((s + more).drop_last() =~= s + more.drop_last());
    }
}

} // verus!
