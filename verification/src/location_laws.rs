//! What holds of all positions, lines and orders, told from the characters of the text alone.
use vstd::prelude::*;
use vstd::utf8::*;

use crate::lines;
use crate::location;
use crate::location::Place;
use crate::order;
use crate::text;

verus! {

/// The line of a position is the number of line feeds before it.
pub proof fn law_line_is_number_of_line_feeds(s: Seq<char>)
    ensures
        location::line_feeds(s) == s.filter(|c: char| c == '\n').len(),
    decreases s.len(),
{
    reveal(Seq::filter);
    if s.len() > 0 {
        law_line_is_number_of_line_feeds(s.drop_last());
    }
}

/// How many UTF-16 code units the characters of `s` take: one each, and one more for each beyond the
/// first 65536.
pub open spec fn units(s: Seq<char>) -> int {
    s.len() as int + s.filter(|c: char| c as u32 >= 0x10000).len()
}

/// The column of a position is the number of UTF-16 code units since the last line feed before it.
pub proof fn law_column_is_number_of_units_in_line(s: Seq<char>, n: int)
    requires
        0 <= n <= s.len(),
        n > 0 ==> s[n - 1] == '\n',
        forall|k: int| n <= k < s.len() ==> #[trigger] s[k] != '\n',
    ensures
        location::column(s) == units(s.skip(n)),
    decreases s.len(),
{
    reveal(Seq::filter);
    if s.len() == n {
        assert(s.skip(n) =~= Seq::empty());
    } else {
        let init = s.drop_last();
        assert(s[s.len() - 1] != '\n');
        assert forall|k: int| n <= k < init.len() implies #[trigger] init[k] != '\n' by {
            assert(init[k] == s[k]);
        }
        law_column_is_number_of_units_in_line(init, n);
        assert(s.skip(n).drop_last() =~= init.skip(n));
        assert(s.skip(n).last() == s.last());
    }
}

/// The characters before an offset are those that start before it: all but the last of them end before
/// the offset, and the last reaches it unless the text ends.
pub proof fn law_characters_before_offset(s: Seq<char>, offset: int)
    ensures
        ({
            let k = location::chars_before(s, offset);
            &&& 0 <= k <= s.len()
            &&& k > 0 ==> encode_utf8(s.take(k - 1)).len() < offset
            &&& k < s.len() ==> encode_utf8(s.take(k)).len() >= offset
        }),
    decreases s.len(),
{
    let k = location::chars_before(s, offset);
    assert(s.take(0) =~= Seq::empty());
    assert(encode_utf8(s.take(0)) =~= Seq::empty());
    if s.len() > 0 && offset > 0 {
        let w = encode_scalar(s[0] as u32).len();
        let rest = s.drop_first();
        law_characters_before_offset(rest, offset - w);
        location::lemma_chars_before(rest, offset - w);
        lemma_take_bytes(s, k);
        if k > 1 {
            lemma_take_bytes(s, k - 1);
        }
    }
}

/// The bytes of a prefix are those of its first character and of the others.
proof fn lemma_take_bytes(s: Seq<char>, k: int)
    requires
        0 < k <= s.len(),
    ensures
        encode_utf8(s.take(k)).len() == encode_scalar(s[0] as u32).len() + encode_utf8(
            s.drop_first().take(k - 1),
        ).len(),
{
    let rest = s.drop_first().take(k - 1);
    assert(s.take(k).drop_first() =~= rest);
    assert(s.take(k)[0] == s[0]);
    assert(encode_utf8(s.take(k)) == encode_scalar(s[0] as u32) + encode_utf8(rest));
}

/// The offset of a position lies in the position's line, where the text has that line: at the first
/// character whose column reaches the position's, or at the end of the line if none does. Otherwise it
/// is the end of the text.
pub proof fn law_offset_lies_in_line(s: Seq<char>, line: int, character: int)
    requires
        0 <= line,
        0 <= character,
    ensures
        ({
            let k = location::chars_to(s, line, character);
            &&& 0 <= k <= s.len()
            &&& location::line_feeds(s) < line ==> k == s.len()
            &&& location::line_feeds(s) >= line ==> {
                &&& location::line_feeds(s.take(k)) == line
                &&& location::column(s.take(k)) >= character || k == s.len() || s[k] == '\n'
                &&& location::column(s.take(k)) > 0 ==> location::column(s.take(k - 1))
                    < character && s[k - 1] != '\n'
            }
        }),
    decreases s.len(),
{
    let k = location::chars_to(s, line, character);
    location::lemma_chars_to(s, line, character);
    assert(s.take(0) =~= Seq::empty());
    assert(s.take(s.len() as int) =~= s);
    if s.len() > 0 {
        let rest = s.drop_first();
        location::lemma_first_char(s, s.len() as int);
        assert(rest.take(rest.len() as int) =~= rest);
        if line > 0 {
            let below = if s[0] == '\n' {
                line - 1
            } else {
                line
            };
            law_offset_lies_in_line(rest, below, character);
            location::lemma_first_char(s, k);
            if k > 1 {
                location::lemma_first_char(s, k - 1);
                assert(rest[k - 2] == s[k - 1]);
            }
            if k < s.len() {
                assert(rest[k - 1] == s[k]);
            }
            if k > 1 {
                assert(rest.take(k - 1).drop_last() =~= rest.take(k - 2));
                assert(rest.take(k - 1).last() == s[k - 1]);
            } else {
                assert(rest.take(k - 1) =~= Seq::empty());
            }
        } else if character > 0 && s[0] != '\n' {
            let left = character - location::utf16_width(s[0]);
            if left >= 0 {
                law_offset_lies_in_line(rest, 0, left);
            } else {
                assert(location::chars_to(rest, 0, left) == 0);
                assert(rest.take(0) =~= Seq::empty());
            }
            lemma_feeds_not_negative(rest);
            location::lemma_first_char(s, k);
            if k > 1 {
                location::lemma_first_char(s, k - 1);
                assert(rest[k - 2] == s[k - 1]);
                lemma_prefix_without_feeds(rest, k - 1, k - 2);
                assert(rest.take(k - 1).drop_last() =~= rest.take(k - 2));
                assert(rest.take(k - 1).last() == s[k - 1]);
                lemma_feeds_not_negative(rest.take(k - 2));
                assert(location::column(rest.take(k - 1)) > 0);
            } else {
                assert(s.take(0) =~= Seq::empty());
            }
            if k < s.len() {
                assert(rest[k - 1] == s[k]);
            }
        } else {
            lemma_feeds_not_negative(s);
        }
    }
}

/// There are no fewer than no line feeds.
proof fn lemma_feeds_not_negative(s: Seq<char>)
    ensures
        location::line_feeds(s) >= 0,
        location::column(s) >= 0,
    decreases s.len(),
{
    if s.len() > 0 {
        lemma_feeds_not_negative(s.drop_last());
    }
}

/// A prefix of a text without line feeds has none either.
proof fn lemma_prefix_without_feeds(s: Seq<char>, k: int, j: int)
    requires
        0 <= j <= k <= s.len(),
        location::line_feeds(s.take(k)) == 0,
    ensures
        location::line_feeds(s.take(j)) == 0,
    decreases k - j,
{
    if j < k {
        assert(s.take(k).drop_last() =~= s.take(k - 1));
        lemma_feeds_not_negative(s.take(k - 1));
        lemma_prefix_without_feeds(s, k - 1, j);
    } else {
        lemma_feeds_not_negative(s.take(j));
    }
}

/// Whether one byte string comes before another in the order of a dictionary.
pub open spec fn bytes_before(a: Seq<u8>, b: Seq<u8>) -> bool {
    exists|n: int|
        #![trigger a.take(n)]
        0 <= n <= a.len() && n < b.len() && a.take(n) == b.take(n) && (n == a.len() || a[n] < b[n])
}

/// Whether a place comes no later than another: by the bytes of its URI, then by its line, then by its
/// column.
pub open spec fn comes_no_later(p: Place, q: Place) -> bool {
    let (a, b) = (p.range.start, q.range.start);
    ||| bytes_before(encode_utf8(p.uri), encode_utf8(q.uri))
    ||| p.uri == q.uri && (a.line < b.line || (a.line == b.line && a.character <= b.character))
}

/// The order of byte strings is that of a dictionary.
proof fn lemma_byte_rank(a: Seq<u8>, b: Seq<u8>)
    ensures
        order::byte_rank(a, b) < 0 <==> bytes_before(a, b),
        order::byte_rank(a, b) == 0 <==> a == b,
    decreases a.len(),
{
    if a.len() == 0 || b.len() == 0 || a[0] != b[0] {
        assert(a.take(0) =~= b.take(0));
        if a.len() == 0 && b.len() == 0 {
            assert(a =~= b);
        }
        if bytes_before(a, b) {
            let n = choose|n: int|
                #![trigger a.take(n)]
                0 <= n <= a.len() && n < b.len() && a.take(n) == b.take(n) && (n == a.len() || a[n]
                    < b[n]);
            if n > 0 {
                assert(a.take(n)[0] == b.take(n)[0]);
            }
        }
    } else {
        let (x, y) = (a.drop_first(), b.drop_first());
        lemma_byte_rank(x, y);
        if x == y {
            assert(a =~= seq![a[0]] + x);
            assert(b =~= seq![b[0]] + y);
        }
        if bytes_before(x, y) {
            let n = choose|n: int|
                #![trigger x.take(n)]
                0 <= n <= x.len() && n < y.len() && x.take(n) == y.take(n) && (n == x.len() || x[n]
                    < y[n]);
            assert(a.take(n + 1) =~= seq![a[0]] + x.take(n));
            assert(b.take(n + 1) =~= seq![b[0]] + y.take(n));
            if n < x.len() {
                assert(x[n] == a[n + 1] && y[n] == b[n + 1]);
            }
        }
        if bytes_before(a, b) {
            let n = choose|n: int|
                #![trigger a.take(n)]
                0 <= n <= a.len() && n < b.len() && a.take(n) == b.take(n) && (n == a.len() || a[n]
                    < b[n]);
            assert(n > 0);
            assert(x.take(n - 1) =~= a.take(n).drop_first());
            assert(y.take(n - 1) =~= b.take(n).drop_first());
            if n < a.len() {
                assert(x[n - 1] == a[n] && y[n - 1] == b[n]);
            }
        }
    }
}

/// Sorted places come by URI, line and column.
pub proof fn law_sorted_by_uri_line_and_column(s: Seq<Place>)
    ensures
        order::is_sorted(s) <==> forall|i: int, j: int|
            0 <= i < j < s.len() ==> comes_no_later(#[trigger] s[i], #[trigger] s[j]),
{
    assert forall|p: Place, q: Place| #[trigger] order::rank(p, q) <= 0 <==> comes_no_later(p, q) by {
        lemma_byte_rank(encode_utf8(p.uri), encode_utf8(q.uri));
        encode_utf8_decode_utf8(p.uri);
        encode_utf8_decode_utf8(q.uri);
    }
    assert forall|i: int, j: int| 0 <= i < j < s.len() implies (order::rank(
        #[trigger] s[i],
        #[trigger] s[j],
    ) <= 0 <==> comes_no_later(s[i], s[j])) by {}
    if order::is_sorted(s) {
        assert forall|i: int, j: int| 0 <= i < j < s.len() implies comes_no_later(
            #[trigger] s[i],
            #[trigger] s[j],
        ) by {
            assert(order::rank(s[i], s[j]) <= 0);
        }
    }
}

/// Whether a character is white space in Unicode.
pub open spec fn is_unicode_space(c: char) -> bool {
    let v = c as u32;
    ||| v == 0x09 || v == 0x0a || v == 0x0b || v == 0x0c || v == 0x0d || v == 0x20
    ||| v == 0x85 || v == 0xa0 || v == 0x1680 || 0x2000 <= v <= 0x200a
    ||| v == 0x2028 || v == 0x2029 || v == 0x202f || v == 0x205f || v == 0x3000
}

/// Whether a text is white space only.
pub open spec fn all_space(s: Seq<char>) -> bool {
    forall|k: int| 0 <= k < s.len() ==> is_unicode_space(#[trigger] s[k])
}

/// White space around a text is taken off, on the sides that are asked for, and nothing else.
pub proof fn law_white_space_around_text_is_trimmed(before: Seq<char>, s: Seq<char>, after: Seq<char>)
    requires
        all_space(before),
        all_space(after),
        s.len() > 0 ==> !is_unicode_space(s[0]) && !is_unicode_space(s.last()),
    ensures
        s.len() > 0 ==> lines::trimmed_start(before + s + after) == s + after,
        lines::trimmed(before + s + after) == s,
{
    lemma_trim_start(before, s + after);
    if s.len() > 0 {
        lemma_trim_end(s, after);
        assert(before + s + after =~= before + (s + after));
    } else {
        lemma_trim_start(before + after, Seq::empty());
        assert(before + s + after =~= (before + after) + Seq::<char>::empty());
        assert forall|k: int| 0 <= k < (before + after).len() implies is_unicode_space(
            #[trigger] (before + after)[k],
        ) by {
            if k < before.len() {
                assert((before + after)[k] == before[k]);
            } else {
                assert((before + after)[k] == after[k - before.len()]);
            }
        }
        lemma_trim_start(before + after, Seq::empty());
        assert(lines::trimmed_end(Seq::empty()) =~= Seq::empty());
        assert(s =~= Seq::empty());
    }
}

/// White space at the start is taken off.
pub proof fn lemma_trim_start(before: Seq<char>, s: Seq<char>)
    ensures
        all_space(before) && (s.len() > 0 ==> !is_unicode_space(s[0])) ==> lines::trimmed_start(
            before + s,
        ) == s,
    decreases before.len(),
{
    if all_space(before) && (s.len() > 0 ==> !is_unicode_space(s[0])) {
        if before.len() == 0 {
            assert(before + s =~= s);
        } else {
            let rest = before.drop_first();
            assert(is_unicode_space(before[0]));
            assert forall|k: int| 0 <= k < rest.len() implies is_unicode_space(
                #[trigger] rest[k],
            ) by {
                assert(rest[k] == before[k + 1]);
            }
            lemma_trim_start(rest, s);
            assert((before + s).drop_first() =~= rest + s);
            assert((before + s)[0] == before[0]);
        }
    }
}

/// White space at the end is taken off.
proof fn lemma_trim_end(s: Seq<char>, after: Seq<char>)
    requires
        all_space(after),
        s.len() > 0,
        !is_unicode_space(s.last()),
    ensures
        lines::trimmed_end(s + after) == s,
    decreases after.len(),
{
    if after.len() == 0 {
        assert(s + after =~= s);
    } else {
        let init = after.drop_last();
        assert(is_unicode_space(after[after.len() - 1]));
        assert forall|k: int| 0 <= k < init.len() implies is_unicode_space(#[trigger] init[k]) by {
            assert(init[k] == after[k]);
        }
        lemma_trim_end(s, init);
        assert((s + after).drop_last() =~= s + init);
        assert((s + after).last() == after.last());
    }
}

/// A text is parted at its line feeds, with a carriage return before one belonging to it. The last
/// line needs no line feed, and behind the last line feed there is no empty line.
pub proof fn law_lines_end_at_line_feeds(line: Seq<char>, rest: Seq<char>)
    requires
        !line.contains('\n'),
    ensures
        lines::lines_of(Seq::empty()) == Seq::<Seq<char>>::empty(),
        line.len() > 0 ==> lines::lines_of(line) == seq![line],
        line.len() == 0 || line.last() != '\r' ==> lines::lines_of(line + seq!['\n'] + rest)
            == seq![line] + lines::lines_of(rest),
        lines::lines_of(line + seq!['\r', '\n'] + rest) == seq![line] + lines::lines_of(rest),
{
    lemma_find_at(line, Seq::empty(), '\n');
    assert(line + Seq::<char>::empty() =~= line);
    lemma_feed(line, rest);
    lemma_feed(line.push('\r'), rest);
    assert(line.push('\r') + seq!['\n'] + rest =~= line + seq!['\r', '\n'] + rest);
    assert(line.push('\r').drop_last() =~= line);
    assert forall|k: int| 0 <= k < line.push('\r').len() implies line.push('\r')[k] != '\n' by {
        if k < line.len() {
            assert(line.contains(line[k]));
        }
    }
}

/// What stands before the first line feed is the first line.
proof fn lemma_feed(line: Seq<char>, rest: Seq<char>)
    ensures
        !line.contains('\n') ==> lines::lines_of(line + seq!['\n'] + rest) == seq![
            lines::without_return(line),
        ] + lines::lines_of(rest),
{
    if !line.contains('\n') {
        let s = line + seq!['\n'] + rest;
        let n = line.len() as int;
        assert forall|k: int| 0 <= k < n implies #[trigger] s[k] != '\n' by {
            assert(s[k] == line[k]);
            assert(line.contains(line[k]));
        }
        assert(s[n] == '\n');
        lemma_find(s, '\n', 0, n);
        assert(s.take(n) =~= line);
        assert(s.skip(n + 1) =~= rest);
    }
}

/// What is searched for is found where it stands first.
pub proof fn lemma_find(s: Seq<char>, c: char, i: int, n: int)
    requires
        0 <= i <= n <= s.len(),
        n < s.len() ==> s[n] == c,
        forall|k: int| i <= k < n ==> #[trigger] s[k] != c,
    ensures
        text::find_char(s, c, i) == n,
    decreases n - i,
{
    if i < n {
        assert(s[i] != c);
        lemma_find(s, c, i + 1, n);
    }
}

/// What is not there is not found.
proof fn lemma_find_at(a: Seq<char>, b: Seq<char>, c: char)
    requires
        !a.contains(c),
        b.len() == 0,
    ensures
        text::find_char(a + b, c, 0) == a.len(),
{
    let s = a + b;
    assert forall|k: int| 0 <= k < s.len() implies #[trigger] s[k] != c by {
        assert(s[k] == a[k]);
        assert(a.contains(a[k]));
    }
    lemma_find(s, c, 0, s.len() as int);
}

/// A text is parted at every separator: no part holds one, and the parts are those of the text before
/// the first separator and of the text behind it.
pub proof fn law_text_is_parted_at_separators(part: Seq<char>, sep: char, rest: Seq<char>)
    requires
        !part.contains(sep),
    ensures
        text::split_at_char(part, sep) == seq![part],
        text::split_at_char(part + seq![sep] + rest, sep) == seq![part] + text::split_at_char(
            rest,
            sep,
        ),
{
    lemma_find_at(part, Seq::empty(), sep);
    assert(part + Seq::<char>::empty() =~= part);
    let s = part + seq![sep] + rest;
    let n = part.len() as int;
    assert forall|k: int| 0 <= k < n implies #[trigger] s[k] != sep by {
        assert(s[k] == part[k]);
        assert(part.contains(part[k]));
    }
    assert(s[n] == sep);
    lemma_find(s, sep, 0, n);
    assert(s.take(n) =~= part);
    assert(s.skip(n + 1) =~= rest);
}

/// The position of an offset has the line feeds among the characters before it for its line and the
/// UTF-16 code units since the last of them for its column.
pub proof fn law_position_counts_lines_and_units(s: Seq<char>, offset: int, k: int, n: int)
    requires
        k == location::chars_before(s, offset),
        0 <= n <= k <= s.len(),
        n > 0 ==> s[n - 1] == '\n',
        forall|j: int| n <= j < k ==> #[trigger] s[j] != '\n',
        k <= u32::MAX / 2,
    ensures
        ({
            let p = location::position_at(s, offset);
            &&& p.line == s.take(k).filter(|c: char| c == '\n').len()
            &&& p.character == units(s.subrange(n, k))
        }),
{
    let t = s.take(k);
    law_line_is_number_of_line_feeds(t);
    assert forall|j: int| n <= j < t.len() implies #[trigger] t[j] != '\n' by {
        assert(t[j] == s[j]);
    }
    if n > 0 {
        assert(t[n - 1] == s[n - 1]);
    }
    law_column_is_number_of_units_in_line(t, n);
    assert(t.skip(n) =~= s.subrange(n, k));
    lemma_filter_is_no_longer(t, |c: char| c == '\n');
    lemma_filter_is_no_longer(t.skip(n), |c: char| c as u32 >= 0x10000);
}

/// A filtered text is no longer than the text.
proof fn lemma_filter_is_no_longer(s: Seq<char>, p: spec_fn(char) -> bool)
    ensures
        s.filter(p).len() <= s.len(),
    decreases s.len(),
{
    reveal(Seq::filter);
    if s.len() > 0 {
        lemma_filter_is_no_longer(s.drop_last(), p);
    }
}

/// The offset of a position is that of the characters that lead to it.
pub proof fn law_offset_counts_bytes(s: Seq<char>, position: location::Position)
    ensures
        location::offset_at(s, position) == encode_utf8(
            s.take(location::chars_to(s, position.line as int, position.character as int)),
        ).len(),
{
}

} // verus!
