//! Names of attributes and of the methods that compute them.
use vstd::prelude::*;
use vstd::string::*;

use crate::text;

verus! {

/// Whether `c` is an ASCII capital.
pub open spec fn is_capital(c: char) -> bool {
    'A' <= c <= 'Z'
}

/// Whether `c` is an ASCII small letter.
pub open spec fn is_small(c: char) -> bool {
    'a' <= c <= 'z'
}

/// Whether `c` is an ASCII digit.
pub open spec fn is_digit(c: char) -> bool {
    '0' <= c <= '9'
}

/// An ASCII capital as a small letter; any other character unchanged.
pub open spec fn small(c: char) -> char {
    if is_capital(c) {
        (c as u32 + 0x20) as char
    } else {
        c
    }
}

/// An ASCII small letter as a capital; any other character unchanged.
pub open spec fn capital(c: char) -> char {
    if is_small(c) {
        (c as u32 - 0x20) as char
    } else {
        c
    }
}

/// Whether a new word begins with the capital at `i`: behind a small letter or a digit, or as the
/// last of several capitals, before a small letter.
pub open spec fn begins_word(s: Seq<char>, i: int) -> bool {
    &&& 0 < i < s.len()
    &&& is_capital(s[i])
    &&& is_small(s[i - 1]) || is_digit(s[i - 1]) || (is_capital(s[i - 1]) && i + 1 < s.len()
        && is_small(s[i + 1]))
}

/// The first `n` characters of a camel-case name in snake case.
pub open spec fn snake_to(s: Seq<char>, n: int) -> Seq<char>
    decreases n,
{
    if n <= 0 {
        Seq::empty()
    } else if begins_word(s, n - 1) {
        snake_to(s, n - 1).push('_').push(small(s[n - 1]))
    } else {
        snake_to(s, n - 1).push(small(s[n - 1]))
    }
}

/// A camel-case name in snake case.
pub open spec fn snake(s: Seq<char>) -> Seq<char> {
    snake_to(s, s.len() as int)
}

/// The first `n` characters of a snake-case name with capitals for its underscores.
pub open spec fn studly_to(s: Seq<char>, n: int) -> Seq<char>
    decreases n,
{
    if n <= 0 {
        Seq::empty()
    } else if s[n - 1] == '_' {
        studly_to(s, n - 1)
    } else if n == 1 || s[n - 2] == '_' {
        studly_to(s, n - 1).push(capital(s[n - 1]))
    } else {
        studly_to(s, n - 1).push(s[n - 1])
    }
}

/// A snake-case name with a capital at the start of each word and without the underscores.
pub open spec fn studly(s: Seq<char>) -> Seq<char> {
    studly_to(s, s.len() as int)
}

/// Whether `c` is an ASCII capital.
fn char_is_capital(c: char) -> (r: bool)
    ensures
        r == is_capital(c),
{
    'A' <= c && c <= 'Z'
}

/// Whether `c` is an ASCII small letter.
fn char_is_small(c: char) -> (r: bool)
    ensures
        r == is_small(c),
{
    'a' <= c && c <= 'z'
}

/// Whether `c` is an ASCII digit.
fn char_is_digit(c: char) -> (r: bool)
    ensures
        r == is_digit(c),
{
    '0' <= c && c <= '9'
}

/// An ASCII capital as a small letter; any other character unchanged.
fn char_to_small(c: char) -> (r: char)
    ensures
        r == small(c),
{
    if char_is_capital(c) {
        (c as u8 + 0x20) as char
    } else {
        c
    }
}

/// An ASCII small letter as a capital; any other character unchanged.
fn char_to_capital(c: char) -> (r: char)
    ensures
        r == capital(c),
{
    if char_is_small(c) {
        (c as u8 - 0x20) as char
    } else {
        c
    }
}

/// A camel-case name in snake case: `firstName` becomes `first_name`, and `URLName` becomes
/// `url_name`.
pub fn camel_to_snake(name: &str) -> (r: String)
    ensures
        r@ == snake(name@),
{
    let chars = text::chars_of(name);
    let count = chars.len();
    let mut r: String = String::new();
    let mut i: usize = 0;
    while i < count
        invariant
            chars@ == name@,
            count == chars@.len(),
            i <= count,
            r@ == snake_to(name@, i as int),
        decreases count - i,
    {
        let c = chars[i];
        let begins = i > 0 && char_is_capital(c) && (char_is_small(chars[i - 1]) || char_is_digit(
            chars[i - 1],
        ) || (char_is_capital(chars[i - 1]) && i + 1 < count && char_is_small(chars[i + 1])));
        if begins {
            r.push('_');
        }
        r.push(char_to_small(c));
        i += 1;
    }
    r
}

/// A snake-case name with a capital at the start of each word and without the underscores.
pub fn snake_to_studly(name: &str) -> (r: String)
    ensures
        r@ == studly(name@),
{
    let chars = text::chars_of(name);
    let mut r: String = String::new();
    let mut i: usize = 0;
    while i < chars.len()
        invariant
            chars@ == name@,
            i <= chars@.len(),
            r@ == studly_to(name@, i as int),
        decreases chars@.len() - i,
    {
        let c = chars[i];
        if c != '_' {
            if i == 0 || chars[i - 1] == '_' {
                r.push(char_to_capital(c));
            } else {
                r.push(c);
            }
        }
        i += 1;
    }
    r
}

/// The name of the method that computes the attribute `property`: `display_name` is computed by
/// `getDisplayNameAttribute`.
pub fn legacy_accessor_method_name(property: &str) -> (r: String)
    ensures
        r@ == "get"@ + studly(property@) + "Attribute"@,
{
    let mut r = "get".to_owned();
    r.append(snake_to_studly(property).as_str());
    r.append("Attribute");
    r
}

/// Whether a snake-case name can be told from its capitals: words of small letters and digits that
/// begin with a letter, with one underscore between two words. Where the word before an underscore is
/// a single letter, the word behind it has a second letter.
pub open spec fn is_snake_name(s: Seq<char>) -> bool {
    &&& forall|i: int|
        0 <= i < s.len() ==> is_small(#[trigger] s[i]) || is_digit(s[i]) || s[i] == '_'
    &&& s.len() > 0 ==> is_small(s[0]) && s.last() != '_'
    &&& forall|i: int|
        0 <= i < s.len() && #[trigger] s[i] == '_' ==> i + 1 < s.len() && is_small(s[i + 1]) && (
        starts_word(s, i - 1) ==> i + 2 < s.len() && is_small(s[i + 2]))
}

/// Whether a word begins at `i`.
pub open spec fn starts_word(s: Seq<char>, i: int) -> bool {
    i == 0 || (0 < i < s.len() && s[i - 1] == '_')
}

/// The first `n` characters give a part of what all of them give.
proof fn lemma_studly_prefix(s: Seq<char>, n: int, m: int)
    requires
        0 <= n <= m <= s.len(),
    ensures
        studly_to(s, n).is_prefix_of(studly_to(s, m)),
    decreases m,
{
    if n < m {
        lemma_studly_prefix(s, n, m - 1);
    }
}

/// What the last of `n` characters becomes, and where it goes.
proof fn lemma_studly_last(s: Seq<char>, n: int)
    requires
        0 < n <= s.len(),
        s[n - 1] != '_',
    ensures
        studly_to(s, n).len() == studly_to(s, n - 1).len() + 1,
        studly_to(s, n).len() <= studly(s).len(),
        studly(s)[studly_to(s, n).len() - 1] == (if starts_word(s, n - 1) {
            capital(s[n - 1])
        } else {
            s[n - 1]
        }),
{
    let k = studly_to(s, n).len() as int;
    lemma_studly_prefix(s, n, s.len() as int);
    assert(studly(s).take(k)[k - 1] == studly_to(s, n)[k - 1]);
}

/// The names that come back are those of the first `n` characters.
proof fn lemma_snake_of_studly(s: Seq<char>, n: int)
    requires
        is_snake_name(s),
        0 < n <= s.len(),
        s[n - 1] != '_',
    ensures
        snake_to(studly(s), studly_to(s, n).len() as int) == s.take(n),
    decreases n,
{
    let t = studly(s);
    let k = studly_to(s, n).len() as int;
    lemma_studly_last(s, n);
    if n == 1 {
        assert(k == 1);
        assert(snake_to(t, 0) =~= Seq::empty());
        assert(snake_to(t, 1) =~= s.take(1));
    } else if s[n - 2] != '_' {
        lemma_snake_of_studly(s, n - 1);
        assert(!is_capital(t[k - 1]));
        assert(snake_to(t, k) =~= s.take(n));
    } else {
        assert(n >= 3);
        if s[n - 3] == '_' {
            assert(is_small(s[n - 3 + 1]));
        }
        lemma_snake_of_studly(s, n - 2);
        lemma_studly_last(s, n - 2);
        assert(studly_to(s, n - 1) == studly_to(s, n - 2));
        assert(is_small(s[n - 2 + 1]));
        assert(is_capital(t[k - 1]));
        if starts_word(s, n - 3) {
            assert(is_small(s[n - 2 + 2]));
            lemma_studly_last(s, n + 1);
            assert(t[k] == s[n]);
        }
        assert(begins_word(t, k - 1));
        assert(snake_to(t, k) =~= s.take(n));
    }
}

/// Taking the capitals of an accessor's name apart again gives the attribute's name.
pub proof fn law_snake_of_studly(property: Seq<char>)
    requires
        is_snake_name(property),
    ensures
        snake(studly(property)) == property,
{
    let n = property.len() as int;
    if n > 0 {
        lemma_snake_of_studly(property, n);
        assert(property.take(n) =~= property);
    } else {
        assert(snake(studly(property)) =~= property);
    }
}

/// The capitals of `s` as small letters.
pub open spec fn in_small_letters(s: Seq<char>) -> Seq<char> {
    s.map_values(
        |c: char|
            if 'A' <= c <= 'Z' {
                (c as u32 + 0x20) as char
            } else {
                c
            },
    )
}

/// Where no word begins inside of a name, its snake case is its small letters.
proof fn lemma_snake_without_words(s: Seq<char>, from: int, n: int)
    requires
        0 <= from <= n <= s.len(),
        forall|i: int| from <= i < n ==> !#[trigger] begins_word(s, i),
    ensures
        snake_to(s, n) == snake_to(s, from) + in_small_letters(s.subrange(from, n)),
    decreases n - from,
{
    if from == n {
        assert(s.subrange(from, n) =~= Seq::empty());
        assert(in_small_letters(s.subrange(from, n)) =~= Seq::empty());
    } else {
        lemma_snake_without_words(s, from, n - 1);
        assert(!begins_word(s, n - 1));
        assert(in_small_letters(s.subrange(from, n)) =~= in_small_letters(
            s.subrange(from, n - 1),
        ).push(small(s[n - 1])));
    }
    assert(snake_to(s, n) =~= snake_to(s, from) + in_small_letters(s.subrange(from, n)));
}

/// Several capitals are one word, and a capital with small letters behind them begins another.
pub proof fn law_acronyms_are_words(acronym: Seq<char>, word: Seq<char>)
    requires
        acronym.len() > 0,
        forall|i: int| 0 <= i < acronym.len() ==> 'A' <= #[trigger] acronym[i] <= 'Z',
        word.len() > 1,
        'A' <= word[0] <= 'Z',
        forall|i: int| 1 <= i < word.len() ==> 'a' <= #[trigger] word[i] <= 'z',
    ensures
        snake(acronym) == in_small_letters(acronym),
        snake(acronym + word) == in_small_letters(acronym) + seq!['_'] + in_small_letters(word),
{
    let s = acronym + word;
    let n = acronym.len() as int;
    assert forall|i: int| 0 <= i < n implies !#[trigger] begins_word(acronym, i) by {
        assert('A' <= acronym[i] <= 'Z');
        if i > 0 {
            assert('A' <= acronym[i - 1] <= 'Z');
        }
        if i + 1 < n {
            assert('A' <= acronym[i + 1] <= 'Z');
        }
    }
    lemma_snake_without_words(acronym, 0, n);
    assert(acronym.subrange(0, n) =~= acronym);
    assert(snake(acronym) =~= in_small_letters(acronym));
    assert forall|i: int| 0 <= i < n implies !#[trigger] begins_word(s, i) by {
        assert(s[i] == acronym[i] && 'A' <= acronym[i] <= 'Z');
        if i > 0 {
            assert(s[i - 1] == acronym[i - 1] && 'A' <= acronym[i - 1] <= 'Z');
        }
        if i + 1 < n {
            assert(s[i + 1] == acronym[i + 1] && 'A' <= acronym[i + 1] <= 'Z');
        } else {
            assert(s[i + 1] == word[0]);
        }
    }
    lemma_snake_without_words(s, 0, n);
    assert(s.subrange(0, n) =~= acronym);
    assert(snake_to(s, n) =~= in_small_letters(acronym));
    assert(s[n] == word[0] && s[n + 1] == word[1] && s[n - 1] == acronym[n - 1]);
    assert('a' <= word[1] <= 'z' && 'A' <= acronym[n - 1] <= 'Z');
    assert(begins_word(s, n));
    assert forall|i: int| n + 1 <= i < s.len() implies !#[trigger] begins_word(s, i) by {
        assert(s[i] == word[i - n] && 'a' <= word[i - n] <= 'z');
    }
    lemma_snake_without_words(s, n + 1, s.len() as int);
    assert(in_small_letters(word) =~= seq![small(word[0])] + in_small_letters(
        s.subrange(n + 1, s.len() as int),
    ));
    assert(snake(s) =~= in_small_letters(acronym) + seq!['_'] + in_small_letters(word));
}

/// A capital behind a small letter or a digit begins a word; the parts before and behind it are put in
/// snake case on their own.
pub proof fn law_capital_behind_small_letter_begins_word(a: Seq<char>, w: Seq<char>)
    requires
        a.len() > 0,
        w.len() > 0,
        'a' <= a.last() <= 'z' || '0' <= a.last() <= '9',
        'A' <= w[0] <= 'Z',
    ensures
        snake(a + w) == snake(a) + seq!['_'] + snake(w),
{
    let s = a + w;
    let n = a.len() as int;
    assert forall|i: int| 0 <= i < n implies begins_word(s, i) == #[trigger] begins_word(a, i) by {
        assert(s[i] == a[i]);
        if i > 0 {
            assert(s[i - 1] == a[i - 1]);
        }
        if i + 1 < n {
            assert(s[i + 1] == a[i + 1]);
        } else {
            assert(a[i] == a.last());
        }
    }
    lemma_snake_same(s, a, n);
    assert(s[n] == w[0] && s[n - 1] == a.last());
    assert(begins_word(s, n));
    assert(s.skip(n) =~= w);
    lemma_snake_behind(s, n, w, w.len() as int, snake(a));
}

/// Names that begin words at the same places have the same snake case so far.
proof fn lemma_snake_same(s: Seq<char>, a: Seq<char>, n: int)
    requires
        0 <= n <= a.len() <= s.len(),
        forall|i: int| 0 <= i < n ==> begins_word(s, i) == #[trigger] begins_word(a, i),
        forall|i: int| 0 <= i < n ==> s[i] == #[trigger] a[i],
    ensures
        snake_to(s, n) == snake_to(a, n),
    decreases n,
{
    if n > 0 {
        lemma_snake_same(s, a, n - 1);
        assert(begins_word(s, n - 1) == begins_word(a, n - 1));
        assert(s[n - 1] == a[n - 1]);
    }
}

/// What stands behind the start of a word is put in snake case on its own.
proof fn lemma_snake_behind(s: Seq<char>, n: int, w: Seq<char>, k: int, head: Seq<char>)
    requires
        0 < n,
        s.len() == n + w.len(),
        s.skip(n) == w,
        begins_word(s, n),
        snake_to(s, n) == head,
        0 < k <= w.len(),
    ensures
        snake_to(s, n + k) == head + seq!['_'] + snake_to(w, k),
    decreases k,
{
    assert(s[n + k - 1] == w[k - 1]) by {
        assert(s.skip(n)[k - 1] == s[n + k - 1]);
    }
    if k == 1 {
        assert(snake_to(w, 0) =~= Seq::empty());
        assert(snake_to(s, n + 1) =~= head + seq!['_'] + snake_to(w, 1));
    } else {
        lemma_snake_behind(s, n, w, k - 1, head);
        assert(s[n + k - 2] == w[k - 2]) by {
            assert(s.skip(n)[k - 2] == s[n + k - 2]);
        }
        if k < w.len() {
            assert(s[n + k] == w[k]) by {
                assert(s.skip(n)[k] == s[n + k]);
            }
        }
        assert(begins_word(s, n + k - 1) == begins_word(w, k - 1));
        assert(snake_to(s, n + k) =~= head + seq!['_'] + snake_to(w, k));
    }
}

/// A word with a capital for its first letter.
pub open spec fn capitalized(word: Seq<char>) -> Seq<char> {
    if word.len() > 0 && 'a' <= word[0] <= 'z' {
        seq![(word[0] as u32 - 0x20) as char] + word.drop_first()
    } else {
        word
    }
}

/// The words between underscores are put together with a capital each.
pub proof fn law_words_between_underscores_are_capitalized(word: Seq<char>, rest: Seq<char>)
    requires
        !word.contains('_'),
    ensures
        studly(word) == capitalized(word),
        studly(word + seq!['_'] + rest) == capitalized(word) + studly(rest),
{
    let s = word + seq!['_'] + rest;
    let n = word.len() as int;
    lemma_studly_word(word, word, n);
    lemma_studly_word(s, word, n);
    assert(s[n] == '_');
    assert(studly_to(s, n + 1) == capitalized(word));
    assert(s.skip(n + 1) =~= rest);
    lemma_studly_behind(s, n + 1, rest, rest.len() as int, capitalized(word));
}

/// A word at the start of a name is capitalized.
proof fn lemma_studly_word(s: Seq<char>, word: Seq<char>, n: int)
    requires
        !word.contains('_'),
        word.is_prefix_of(s),
        n == word.len(),
    ensures
        studly_to(s, n) == capitalized(word),
    decreases n,
{
    if n > 0 {
        let init = word.drop_last();
        assert(word.contains(word[n - 1]));
        assert(s.take(n)[n - 1] == s[n - 1]);
        assert(init =~= s.take(n - 1)) by {
            assert(word =~= s.take(n));
        }
        assert forall|k: int| 0 <= k < init.len() implies init[k] != '_' by {
            assert(init[k] == word[k]);
            assert(word.contains(word[k]));
        }
        lemma_studly_word(s, init, n - 1);
        if n >= 2 {
            assert(s.take(n)[n - 2] == s[n - 2]);
            assert(word.contains(word[n - 2]));
            assert(capitalized(word) =~= capitalized(init).push(word[n - 1]));
        } else {
            assert(capitalized(init) =~= Seq::empty());
            assert(capitalized(word) =~= seq![capital(word[0])]);
        }
        assert(studly_to(s, n) =~= capitalized(word));
    }
}

/// What stands behind an underscore is read on its own.
proof fn lemma_studly_behind(s: Seq<char>, n: int, rest: Seq<char>, k: int, head: Seq<char>)
    requires
        0 < n,
        s[n - 1] == '_',
        s.len() == n + rest.len(),
        s.skip(n) == rest,
        studly_to(s, n) == head,
        0 <= k <= rest.len(),
    ensures
        studly_to(s, n + k) == head + studly_to(rest, k),
    decreases k,
{
    if k == 0 {
        assert(studly_to(s, n) =~= head + studly_to(rest, 0));
    } else {
        lemma_studly_behind(s, n, rest, k - 1, head);
        assert(s[n + k - 1] == rest[k - 1]) by {
            assert(s.skip(n)[k - 1] == s[n + k - 1]);
        }
        if k >= 2 {
            assert(s[n + k - 2] == rest[k - 2]) by {
                assert(s.skip(n)[k - 2] == s[n + k - 2]);
            }
        }
        assert(studly_to(s, n + k) =~= head + studly_to(rest, k));
    }
}

/// Whether an underscore is put before the character at `i`: it is a capital behind a small letter or a
/// digit, or a capital between a capital and a small letter.
pub open spec fn takes_underscore(s: Seq<char>, i: int) -> bool {
    &&& 0 < i < s.len()
    &&& 'A' <= s[i] <= 'Z'
    &&& {
        ||| 'a' <= s[i - 1] <= 'z'
        ||| '0' <= s[i - 1] <= '9'
        ||| 'A' <= s[i - 1] <= 'Z' && i + 1 < s.len() && 'a' <= s[i + 1] <= 'z'
    }
}

/// Snake case is every character of a name in small letters, with underscores before some of them.
pub proof fn law_snake_case_goes_character_by_character(s: Seq<char>)
    ensures
        snake(s) == Seq::new(
            s.len(),
            |i: int|
                if takes_underscore(s, i) {
                    seq!['_'] + in_small_letters(seq![s[i]])
                } else {
                    in_small_letters(seq![s[i]])
                },
        ).flatten(),
{
    let pieces = Seq::new(
        s.len(),
        |i: int|
            if takes_underscore(s, i) {
                seq!['_'] + in_small_letters(seq![s[i]])
            } else {
                in_small_letters(seq![s[i]])
            },
    );
    lemma_snake_pieces(s, pieces, s.len() as int);
    assert(pieces.take(s.len() as int) =~= pieces);
}

/// The first characters of a name give the first pieces of its snake case.
proof fn lemma_snake_pieces(s: Seq<char>, pieces: Seq<Seq<char>>, n: int)
    requires
        0 <= n <= s.len(),
        pieces.len() == s.len(),
        forall|i: int|
            0 <= i < s.len() ==> #[trigger] pieces[i] == (if takes_underscore(s, i) {
                seq!['_'] + in_small_letters(seq![s[i]])
            } else {
                in_small_letters(seq![s[i]])
            }),
    ensures
        snake_to(s, n) == pieces.take(n).flatten(),
    decreases n,
{
    if n == 0 {
        assert(pieces.take(0) =~= Seq::empty());
        assert(pieces.take(0).flatten() =~= Seq::empty());
    } else {
        lemma_snake_pieces(s, pieces, n - 1);
        let c = s[n - 1];
        assert(pieces.take(n) =~= pieces.take(n - 1).push(pieces[n - 1]));
        pieces.take(n - 1).lemma_flatten_push(pieces[n - 1]);
        assert(in_small_letters(seq![c]) =~= seq![small(c)]);
        assert(begins_word(s, n - 1) == takes_underscore(s, n - 1));
        assert(snake_to(s, n) =~= pieces.take(n).flatten());
    }
}

} // verus!
