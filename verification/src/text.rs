//! Source text seen as bytes and as characters.
//!
//! A document is a `str`. Offsets into it count bytes of its UTF-8 encoding; what stands between two
//! offsets is read back as characters with [`between`].
use vstd::prelude::*;
use vstd::string::*;
use vstd::utf8::*;

verus! {

/// Trusted: that `String::push` appends the character to the end of the string.
pub assume_specification[ String::push ](s: &mut String, c: char)
    ensures
        final(s)@ == old(s)@.push(c),
;

/// ASCII white space: space, tab, line feed, form feed and carriage return.
pub open spec fn is_space(b: u8) -> bool {
    b == 0x20 || b == 0x09 || b == 0x0a || b == 0x0c || b == 0x0d
}

/// ASCII letters and digits.
pub open spec fn is_alphanumeric(b: u8) -> bool {
    0x30 <= b <= 0x39 || 0x41 <= b <= 0x5a || 0x61 <= b <= 0x7a
}

/// An ASCII capital as its small letter, any other byte as it is.
pub open spec fn lower(b: u8) -> u8 {
    if 0x41 <= b <= 0x5a {
        (b + 0x20) as u8
    } else {
        b
    }
}

/// The bytes of `s` with the ASCII capitals made small.
pub open spec fn lower_all(s: Seq<u8>) -> Seq<u8> {
    Seq::new(s.len(), |i: int| lower(s[i]))
}

/// The characters that the bytes `from..to` of `b` encode.
pub open spec fn between(b: Seq<u8>, from: int, to: int) -> Seq<char> {
    decode_utf8(b.subrange(from, to))
}

/// The views of a list of strings.
pub open spec fn views(v: Seq<String>) -> Seq<Seq<char>> {
    v.map_values(|s: String| s@)
}

/// Whether `a` and `b` hold the same bytes up to ASCII case.
pub open spec fn same_ignoring_case(a: Seq<u8>, b: Seq<u8>) -> bool {
    lower_all(a) == lower_all(b)
}

/// Whether `b` is ASCII white space.
pub fn byte_is_space(b: u8) -> (r: bool)
    ensures
        r == is_space(b),
{
    b == 0x20 || b == 0x09 || b == 0x0a || b == 0x0c || b == 0x0d
}

/// Whether `b` is an ASCII letter or digit.
pub fn byte_is_alphanumeric(b: u8) -> (r: bool)
    ensures
        r == is_alphanumeric(b),
{
    (0x30 <= b && b <= 0x39) || (0x41 <= b && b <= 0x5a) || (0x61 <= b && b <= 0x7a)
}

/// An ASCII capital as a small letter; any other byte unchanged.
pub fn byte_to_lower(b: u8) -> (r: u8)
    ensures
        r == lower(b),
{
    if 0x41 <= b && b <= 0x5a {
        b + 0x20
    } else {
        b
    }
}

/// In valid UTF-8 an ASCII byte is a whole character: it starts and ends on character boundaries.
pub proof fn lemma_ascii_boundaries(b: Seq<u8>, i: int)
    requires
        valid_utf8(b),
        0 <= i < b.len(),
        b[i] < 0x80,
    ensures
        is_char_boundary(b, i),
        is_char_boundary(b, i + 1),
{
    is_char_boundary_iff_not_is_continuation_byte(b, i);
    valid_utf8_split(b, i);
    let suffix = b.subrange(i, b.len() as int);
    assert(suffix[0] == b[i]);
    let rest = pop_first_scalar(suffix);
    assert(valid_utf8(rest));
    assert(rest =~= b.subrange(i + 1, b.len() as int));
    if i + 1 == b.len() {
        is_char_boundary_start_end_of_seq(b);
    } else {
        assert(valid_first_scalar(rest));
        assert(rest[0] == b[i + 1]);
        is_char_boundary_iff_not_is_continuation_byte(b, i + 1);
    }
}

/// A string holds valid UTF-8, and decoding its bytes gives it back.
pub proof fn lemma_str_bytes(s: Seq<char>)
    ensures
        valid_utf8(encode_utf8(s)),
        decode_utf8(encode_utf8(s)) == s,
        is_char_boundary(encode_utf8(s), 0),
        is_char_boundary(encode_utf8(s), encode_utf8(s).len() as int),
{
    encode_utf8_valid_utf8(s);
    encode_utf8_decode_utf8(s);
    is_char_boundary_start_end_of_seq(encode_utf8(s));
}

/// Cutting at one boundary leaves the earlier boundaries where they are.
pub proof fn lemma_boundary_in_prefix(b: Seq<u8>, i: int, to: int)
    requires
        valid_utf8(b),
        0 <= i <= to <= b.len(),
        is_char_boundary(b, i),
        is_char_boundary(b, to),
    ensures
        valid_utf8(b.subrange(0, to)),
        is_char_boundary(b.subrange(0, to), i),
{
    valid_utf8_split(b, to);
    let p = b.subrange(0, to);
    if i == to {
        is_char_boundary_start_end_of_seq(p);
    } else {
        is_char_boundary_iff_not_is_continuation_byte(b, i);
        assert(p[i] == b[i]);
        is_char_boundary_iff_not_is_continuation_byte(p, i);
    }
}

/// The part of `s` between two byte offsets.
pub fn slice(s: &str, from: usize, to: usize) -> (r: &str)
    requires
        from <= to <= s.spec_bytes().len(),
        is_char_boundary(s.spec_bytes(), from as int),
        is_char_boundary(s.spec_bytes(), to as int),
    ensures
        r@ == between(s.spec_bytes(), from as int, to as int),
        r.spec_bytes() == s.spec_bytes().subrange(from as int, to as int),
{
    proof {
        lemma_str_bytes(s@);
        lemma_boundary_in_prefix(s.spec_bytes(), from as int, to as int);
    }
    let (head, _tail) = s.split_at(to);
    let (_start, part) = head.split_at(from);
    proof {
        let b = s.spec_bytes();
        assert(b.subrange(0, to as int).subrange(from as int, to as int) =~= b.subrange(
            from as int,
            to as int,
        ));
        encode_utf8_decode_utf8(part@);
    }
    part
}

/// Whether the bytes `from..to` of `a` are the bytes of `b`.
pub fn bytes_match(a: &[u8], from: usize, to: usize, b: &[u8]) -> (r: bool)
    requires
        from <= to <= a@.len(),
    ensures
        r == (a@.subrange(from as int, to as int) == b@),
{
    if to - from != b.len() {
        assert(a@.subrange(from as int, to as int).len() != b@.len());
        return false;
    }
    let mut k: usize = 0;
    while k < b.len()
        invariant
            from <= to <= a@.len(),
            to - from == b@.len(),
            k <= b@.len(),
            forall|j: int| 0 <= j < k ==> a@[from + j] == b@[j],
        decreases b@.len() - k,
    {
        if a[from + k] != b[k] {
            assert(a@.subrange(from as int, to as int)[k as int] != b@[k as int]);
            return false;
        }
        k += 1;
    }
    assert(a@.subrange(from as int, to as int) =~= b@);
    true
}

/// Whether the bytes `from..to` of `a` are those of `b` up to ASCII case.
pub fn bytes_match_ignoring_case(a: &[u8], from: usize, to: usize, b: &[u8]) -> (r: bool)
    requires
        from <= to <= a@.len(),
    ensures
        r == same_ignoring_case(a@.subrange(from as int, to as int), b@),
{
    let ghost part = a@.subrange(from as int, to as int);
    if to - from != b.len() {
        assert(lower_all(part).len() != lower_all(b@).len());
        return false;
    }
    let mut k: usize = 0;
    while k < b.len()
        invariant
            from <= to <= a@.len(),
            to - from == b@.len(),
            part == a@.subrange(from as int, to as int),
            k <= b@.len(),
            forall|j: int| 0 <= j < k ==> lower(a@[from + j]) == lower(b@[j]),
        decreases b@.len() - k,
    {
        if byte_to_lower(a[from + k]) != byte_to_lower(b[k]) {
            assert(lower_all(part)[k as int] != lower_all(b@)[k as int]);
            return false;
        }
        k += 1;
    }
    assert(lower_all(part) =~= lower_all(b@));
    true
}

/// Whether two strings are equal.
pub fn str_eq(a: &str, b: &str) -> (r: bool)
    ensures
        r == (a@ == b@),
{
    let x = a.as_bytes();
    let y = b.as_bytes();
    proof {
        encode_utf8_decode_utf8(a@);
        encode_utf8_decode_utf8(b@);
        assert(x@.subrange(0, x@.len() as int) =~= x@);
    }
    bytes_match(x, 0, x.len(), y)
}

/// Whether an executable text is the given one.
pub open spec fn is_text(r: Option<String>, s: Option<Seq<char>>) -> bool {
    match r {
        Some(t) => s == Some(t@),
        None => s is None,
    }
}

/// Whether two strings are equal when ASCII letters are compared without case.
pub fn str_eq_ignoring_case(a: &str, b: &str) -> (r: bool)
    ensures
        r == same_ignoring_case(a.spec_bytes(), b.spec_bytes()),
{
    let x = a.as_bytes();
    let y = b.as_bytes();
    assert(x@.subrange(0, x@.len() as int) =~= x@);
    bytes_match_ignoring_case(x, 0, x.len(), y)
}

/// Whether the character `c` occurs in `s`.
pub fn contains_char(s: &str, c: char) -> (r: bool)
    ensures
        r == s@.contains(c),
{
    for d in it: s.chars()
        invariant
            it.seq() == s@,
            forall|j: int| 0 <= j < it.index() ==> s@[j] != c,
    {
        if d == c {
            assert(s@[it.index() as int] == c);
            return true;
        }
    }
    false
}

/// Filtering a sequence looks at its first element and then at the rest.
pub proof fn lemma_filter_first<A>(x: A, rest: Seq<A>, p: spec_fn(A) -> bool)
    ensures
        (seq![x] + rest).filter(p) == (if p(x) {
            seq![x]
        } else {
            Seq::<A>::empty()
        }) + rest.filter(p),
{
    Seq::filter_distributes_over_add(seq![x], rest, p);
    reveal(Seq::filter);
    assert(seq![x].drop_last() =~= Seq::<A>::empty());
    assert(seq![x].drop_last().filter(p) =~= Seq::<A>::empty());
    assert(seq![x].filter(p) =~= (if p(x) {
        seq![x]
    } else {
        Seq::<A>::empty()
    }));
}

/// The encoding of a concatenation is the concatenation of the encodings.
pub proof fn lemma_encode_concat(a: Seq<char>, b: Seq<char>)
    ensures
        encode_utf8(a + b) == encode_utf8(a) + encode_utf8(b),
    decreases a.len(),
{
    if a.len() == 0 {
        assert(a + b =~= b);
        assert(encode_utf8(a) + encode_utf8(b) =~= encode_utf8(b));
    } else {
        lemma_encode_concat(a.drop_first(), b);
        assert((a + b).drop_first() =~= a.drop_first() + b);
        assert((a + b)[0] == a[0]);
        assert(encode_utf8(a + b) =~= encode_utf8(a) + encode_utf8(b));
    }
}

/// The first place at or after `i` where `c` stands, or the end of `s`.
pub open spec fn find_char(s: Seq<char>, c: char, i: int) -> int
    decreases s.len() - i,
{
    if i >= s.len() {
        s.len() as int
    } else if s[i] == c {
        i
    } else {
        find_char(s, c, i + 1)
    }
}

/// What is found is the first of its kind.
pub proof fn lemma_find_char(s: Seq<char>, c: char, i: int)
    requires
        0 <= i <= s.len(),
    ensures
        i <= find_char(s, c, i) <= s.len(),
        forall|j: int| i <= j < find_char(s, c, i) ==> s[j] != c,
        find_char(s, c, i) < s.len() ==> s[find_char(s, c, i)] == c,
    decreases s.len() - i,
{
    if i < s.len() && s[i] != c {
        lemma_find_char(s, c, i + 1);
    }
}

/// The pieces of `s` between the separators.
pub open spec fn split_at_char(s: Seq<char>, sep: char) -> Seq<Seq<char>>
    decreases s.len(),
    via split_at_char_decreases
{
    let i = find_char(s, sep, 0);
    if i >= s.len() {
        seq![s]
    } else {
        seq![s.take(i)] + split_at_char(s.skip(i + 1), sep)
    }
}

#[via_fn]
proof fn split_at_char_decreases(s: Seq<char>, sep: char) {
    lemma_find_char(s, sep, 0);
}

/// The characters of `s`.
pub fn chars_of(s: &str) -> (r: Vec<char>)
    ensures
        r@ == s@,
{
    let mut r: Vec<char> = Vec::new();
    for c in it: s.chars()
        invariant
            it.seq() == s@,
            r@ == s@.take(it.index() as int),
    {
        r.push(c);
        assert(r@ =~= s@.take(it.index() as int + 1));
    }
    assert(s@.take(s@.len() as int) =~= s@);
    r
}

/// The first place at or after `from` where `c` stands, or the end.
pub fn index_of_char(s: &Vec<char>, c: char, from: usize) -> (r: usize)
    requires
        from <= s@.len(),
    ensures
        r == find_char(s@, c, from as int),
        from <= r <= s@.len(),
{
    let mut i: usize = from;
    while i < s.len()
        invariant
            from <= i <= s@.len(),
            find_char(s@, c, i as int) == find_char(s@, c, from as int),
        decreases s@.len() - i,
    {
        if s[i] == c {
            return i;
        }
        i += 1;
    }
    i
}

/// A search behind `start` finds the same place as one from `start` on.
pub proof fn lemma_find_char_skip(s: Seq<char>, c: char, start: int, i: int)
    requires
        0 <= start,
        0 <= i,
        start + i <= s.len(),
    ensures
        find_char(s.skip(start), c, i) == find_char(s, c, start + i) - start,
    decreases s.len() - start - i,
{
    if start + i < s.len() && s[start + i] != c {
        lemma_find_char_skip(s, c, start, i + 1);
    }
}

/// The pieces of `s` between the separators.
pub fn split(s: &str, sep: char) -> (r: Vec<String>)
    ensures
        views(r@) == split_at_char(s@, sep),
{
    let chars = chars_of(s);
    let mut r: Vec<String> = Vec::new();
    let mut start: usize = 0;
    assert(s@.skip(0) =~= s@);
    assert(views(r@) + split_at_char(s@, sep) =~= split_at_char(s@, sep));
    loop
        invariant
            chars@ == s@,
            start <= s@.len(),
            views(r@) + split_at_char(s@.skip(start as int), sep) == split_at_char(s@, sep),
        decreases s@.len() - start,
    {
        let end = index_of_char(&chars, sep, start);
        let ghost rest = s@.skip(start as int);
        let ghost before = r@;
        proof {
            lemma_find_char_skip(s@, sep, start as int, 0);
            assert(rest.take(end - start) =~= s@.subrange(start as int, end as int));
        }
        r.push(s.substring_char(start, end).to_owned());
        proof {
            assert(views(r@) =~= views(before).push(rest.take(end - start)));
        }
        if end == chars.len() {
            proof {
                assert(rest.take(end - start) =~= rest);
                assert(views(r@) =~= views(before) + seq![rest]);
            }
            return r;
        }
        proof {
            assert(rest.skip(end - start + 1) =~= s@.skip(end + 1));
            assert(views(r@) + split_at_char(s@.skip(end + 1), sep) =~= views(before) + (
            seq![rest.take(end - start)] + split_at_char(s@.skip(end + 1), sep)));
        }
        start = end + 1;
    }
}

/// Whether `s` ends with `suffix`.
pub fn ends_with(s: &str, suffix: &str) -> (r: bool)
    ensures
        r == suffix@.is_suffix_of(s@),
{
    let a = chars_of(s);
    let b = chars_of(suffix);
    let n = a.len();
    if b.len() > n {
        return false;
    }
    let from = n - b.len();
    let mut k: usize = 0;
    while k < b.len()
        invariant
            a@ == s@,
            b@ == suffix@,
            n == a@.len(),
            from == n - b@.len(),
            k <= b@.len(),
            forall|j: int| 0 <= j < k ==> a@[from + j] == b@[j],
        decreases b@.len() - k,
    {
        if a[from + k] != b[k] {
            assert(s@.subrange(from as int, s@.len() as int)[k as int] != suffix@[k as int]);
            return false;
        }
        k += 1;
    }
    assert(s@.subrange(from as int, s@.len() as int) =~= suffix@);
    true
}

/// A copy of a list of texts.
pub fn clone_texts(parts: &Vec<String>) -> (r: Vec<String>)
    ensures
        views(r@) == views(parts@),
{
    let mut r: Vec<String> = Vec::new();
    let mut k: usize = 0;
    while k < parts.len()
        invariant
            k <= parts@.len(),
            r@.len() == k,
            forall|j: int| 0 <= j < k ==> (#[trigger] r@[j])@ == parts@[j]@,
        decreases parts@.len() - k,
    {
        r.push(parts[k].clone());
        k += 1;
    }
    assert(views(r@) =~= views(parts@));
    r
}

/// The part of a key before its first dot.
pub open spec fn key_stem(key: Seq<char>) -> Seq<char> {
    key.take(find_char(key, '.', 0))
}

/// The part of a key before its first dot: the name of the file that holds it.
pub fn file_stem_of_key(key: &str) -> (r: String)
    ensures
        r@ == key_stem(key@),
{
    let chars = chars_of(key);
    let dot = index_of_char(&chars, '.', 0);
    assert(key@.subrange(0, dot as int) =~= key@.take(dot as int));
    key.substring_char(0, dot).to_owned()
}

/// The name of the PHP file with the given stem.
pub fn php_file_name(stem: &str) -> (r: String)
    ensures
        r@ == stem@ + ".php"@,
{
    let mut r = stem.to_owned();
    r.append(".php");
    r
}

/// What is in two lists put together is in one of them.
pub proof fn lemma_contains_concat<A>(a: Seq<A>, b: Seq<A>, x: A)
    ensures
        (a + b).contains(x) <==> a.contains(x) || b.contains(x),
{
    if a.contains(x) {
        let i = a.index_of(x);
        assert((a + b)[i] == x);
    }
    if b.contains(x) {
        let i = b.index_of(x);
        assert((a + b)[a.len() + i] == x);
    }
    if (a + b).contains(x) {
        let i = (a + b).index_of(x);
        if i < a.len() {
            assert(a[i] == x);
        } else {
            assert(b[i - a.len()] == x);
        }
    }
}

/// What a filter keeps was there before.
pub proof fn lemma_filtered_from<A>(s: Seq<A>, p: spec_fn(A) -> bool, k: int)
    requires
        0 <= k < s.filter(p).len(),
    ensures
        exists|j: int| 0 <= j < s.len() && s[j] == s.filter(p)[k],
    decreases s.len(),
{
    reveal(Seq::filter);
    let init = s.drop_last();
    if k < init.filter(p).len() {
        lemma_filtered_from(init, p, k);
        let j = choose|j: int| 0 <= j < init.len() && init[j] == init.filter(p)[k];
        assert(s[j] == s.filter(p)[k]);
    } else {
        assert(s[s.len() - 1] == s.filter(p)[k]);
    }
}

/// The stem of a key holds no dot, and what follows it in the key begins with one.
pub proof fn law_key_stem(key: Seq<char>)
    ensures
        ({
            let stem = key_stem(key);
            &&& !stem.contains('.')
            &&& if key.contains('.') {
                stem.push('.').is_prefix_of(key)
            } else {
                stem == key
            }
        }),
{
    lemma_find_char(key, '.', 0);
    let n = find_char(key, '.', 0);
    if key.contains('.') {
        assert(n < key.len());
        assert(key.take(n + 1) =~= key_stem(key).push('.'));
    } else {
        assert(key_stem(key) =~= key);
    }
}

} // verus!
