//! What holds of all configuration keys that are found.
use vstd::prelude::*;
use vstd::string::*;
use vstd::utf8::*;

use crate::config_keys;
use crate::config_keys::KeySpan;
use crate::lexer;
use crate::lexer::TokenKind;
use crate::text;

verus! {

/// Whether the spans follow each other with at least one byte between two of them.
pub open spec fn is_apart(ms: Seq<KeySpan>) -> bool {
    forall|i: int, j: int| 0 <= i < j < ms.len() ==> (#[trigger] ms[i]).end < (#[trigger] ms[j]).start
}

/// Whether the spans lie, with a byte on either side, between `from` and the end of the source.
pub open spec fn is_within(ms: Seq<KeySpan>, b: Seq<u8>, from: int) -> bool {
    forall|i: int|
        0 <= i < ms.len() ==> from < (#[trigger] ms[i]).start <= ms[i].end < b.len()
}

/// Whether the token `k` ends where the next one starts.
pub open spec fn adjoins(ts: Seq<lexer::Lexeme>, k: int) -> bool {
    k + 1 < ts.len() ==> ts[k].end == ts[k + 1].start
}

/// Whether tokens cover the source from `i` on without gaps, and each is the token at its start.
pub open spec fn is_tiling(b: Seq<u8>, i: int, ts: Seq<lexer::Lexeme>) -> bool {
    &&& i < b.len() ==> ts.len() > 0 && ts[0].start == i && ts.last().end == b.len()
    &&& forall|k: int|
        0 <= k < ts.len() ==> {
            &&& i <= (#[trigger] ts[k]).start < ts[k].end <= b.len()
            &&& ts[k] == lexer::token_at(b, ts[k].start)
        }
    &&& forall|k: int| 0 <= k < ts.len() ==> #[trigger] adjoins(ts, k)
    &&& forall|j: int, k: int|
        0 <= j < k < ts.len() ==> (#[trigger] ts[j]).end <= (#[trigger] ts[k]).start
}

/// The tokens cover the source without gaps, and each is the token at its start.
pub proof fn law_tokens_tile(b: Seq<u8>, i: int)
    requires
        0 <= i <= b.len(),
    ensures
        is_tiling(b, i, lexer::tokens(b, i)),
    decreases b.len() - i,
{
    if i < b.len() {
        let t = lexer::token_at(b, i);
        lexer::lemma_token_at(b, i);
        let rest = lexer::tokens(b, t.end);
        law_tokens_tile(b, t.end);
        let ts = lexer::tokens(b, i);
        assert(ts == seq![t] + rest);
        assert forall|k: int| 0 < k < ts.len() implies #[trigger] ts[k] == rest[k - 1] by {}
        assert forall|k: int| 0 <= k < ts.len() implies #[trigger] adjoins(ts, k) by {
            if k > 0 {
                assert(adjoins(rest, k - 1));
            }
        }
        if rest.len() > 0 {
            assert(ts.last() == rest.last());
        }
    }
}

/// The usages among the tokens from `i` on lie in the source, and apart from each other.
proof fn lemma_usages_from(s: Seq<char>, i: int)
    requires
        0 <= i <= encode_utf8(s).len(),
    ensures
        ({
            let b = encode_utf8(s);
            let us = config_keys::usages_in(b, lexer::tokens(b, i));
            &&& is_within(us, b, i)
            &&& is_apart(us)
            &&& forall|k: int| 0 <= k < us.len() ==> is_spelled(b, #[trigger] us[k])
        }),
    decreases encode_utf8(s).len() - i,
{
    let b = encode_utf8(s);
    let us = config_keys::usages_in(b, lexer::tokens(b, i));
    if i == b.len() {
        reveal(Seq::filter);
        assert(lexer::tokens(b, i) =~= Seq::empty());
        assert(us =~= Seq::empty());
    } else {
        let t = lexer::token_at(b, i);
        lexer::lemma_token_at(b, i);
        lemma_usages_from(s, t.end);
        let rest = config_keys::usages_in(b, lexer::tokens(b, t.end));
        assert(lexer::tokens(b, i) == seq![t] + lexer::tokens(b, t.end));
        config_keys::lemma_usages_first(b, t, lexer::tokens(b, t.end));
        if config_keys::is_usage(b, t) {
            config_keys::lemma_literal_boundaries(s, i);
            assert(us[0] == config_keys::literal_span(b, t));
            assert forall|k: int| 0 < k < us.len() implies #[trigger] us[k] == rest[k - 1] by {}
            assert(us.len() == rest.len() + 1);
        } else {
            assert(us =~= rest);
        }
    }
}

/// Whether a span is what stands between the quotes of a string literal that is the first argument of
/// a configuration call, and its key is the text that stands there: neither empty nor interpolated.
pub open spec fn is_spelled(b: Seq<u8>, m: KeySpan) -> bool {
    &&& m.key == text::between(b, m.start, m.end)
    &&& m.key.len() > 0
    &&& !m.key.contains('$')
    &&& is_char_boundary(b, m.start)
    &&& is_char_boundary(b, m.end)
    &&& lexer::token_at(b, m.start - 1).kind == TokenKind::Literal
    &&& lexer::token_at(b, m.start - 1).end == m.end + 1
    &&& config_keys::is_config_call(b, m.start - 1)
}

/// Every usage that is found spells its key: the key is the text of its span, is not empty and is not
/// interpolated, and a configuration call stands before it. The spans are in the order of the source,
/// with a byte between two of them.
pub proof fn law_usages_are_spelled(content: Seq<char>)
    ensures
        ({
            let b = encode_utf8(content);
            let us = config_keys::usages(b);
            &&& forall|k: int| 0 <= k < us.len() ==> is_spelled(b, #[trigger] us[k])
            &&& is_apart(us)
            &&& is_within(us, b, 0)
        }),
{
    lemma_usages_from(content, 0);
}

/// Where the spans are apart, the one that an offset touches is the one that is found.
proof fn lemma_first_covering(ms: Seq<KeySpan>, k: int, offset: int)
    requires
        is_apart(ms),
        0 <= k < ms.len(),
        config_keys::covers(ms[k], offset),
        forall|i: int| 0 <= i < ms.len() ==> (#[trigger] ms[i]).start <= ms[i].end,
    ensures
        config_keys::first_covering(ms, offset) == Some(ms[k]),
    decreases ms.len(),
{
    if k > 0 {
        assert(ms[0].end < ms[k].start);
        let rest = ms.drop_first();
        assert(rest[k - 1] == ms[k]);
        assert forall|i: int| 0 <= i < rest.len() implies (#[trigger] rest[i]).start
            <= rest[i].end by {
            assert(rest[i] == ms[i + 1]);
        }
        assert forall|i: int, j: int| 0 <= i < j < rest.len() implies (#[trigger] rest[i]).end < (
        #[trigger] rest[j]).start by {
            assert(rest[i] == ms[i + 1] && rest[j] == ms[j + 1]);
        }
        lemma_first_covering(rest, k - 1, offset);
    }
}

/// From every offset of a usage, and from just behind it, that usage is found.
pub proof fn law_usage_is_found_under_cursor(content: Seq<char>, k: int, offset: int)
    requires
        0 <= k < config_keys::usages(encode_utf8(content)).len(),
        config_keys::covers(config_keys::usages(encode_utf8(content))[k], offset),
    ensures
        config_keys::first_covering(config_keys::usages(encode_utf8(content)), offset) == Some(
            config_keys::usages(encode_utf8(content))[k],
        ),
{
    lemma_usages_from(content, 0);
    lemma_first_covering(config_keys::usages(encode_utf8(content)), k, offset);
}

/// Nothing in a comment counts as a usage: no usage shares a byte with a comment.
pub proof fn law_comments_hold_no_usage(content: Seq<char>, k: int, c: int)
    requires
        0 <= k < config_keys::usages(encode_utf8(content)).len(),
        0 <= c < lexer::tokens(encode_utf8(content), 0).len(),
        lexer::tokens(encode_utf8(content), 0)[c].kind == TokenKind::Comment,
    ensures
        ({
            let u = config_keys::usages(encode_utf8(content))[k];
            let t = lexer::tokens(encode_utf8(content), 0)[c];
            u.end < t.start || t.end < u.start
        }),
{
    let b = encode_utf8(content);
    let ts = lexer::tokens(b, 0);
    let us = config_keys::usages(b);
    law_tokens_tile(b, 0);
    let p = |t: lexer::Lexeme| config_keys::is_usage(b, t);
    let kept = ts.filter(p);
    assert(us[k] == config_keys::literal_span(b, kept[k]));
    ts.lemma_filter_pred(p, k);
    text::lemma_filtered_from(ts, p, k);
    let j = choose|j: int| 0 <= j < ts.len() && ts[j] == kept[k];
    assert(ts[j].kind == TokenKind::Literal);
    if j < c {
        assert(ts[j].end <= ts[c].start);
    } else {
        assert(c < j);
        assert(ts[c].end <= ts[j].start);
    }
}

/// Whether a span is what stands between the quotes of a string literal with `=>` behind it, and its
/// key is that text below some path.
pub open spec fn is_declared(b: Seq<u8>, prefix: Seq<char>, m: KeySpan) -> bool {
    &&& lexer::token_at(b, m.start - 1).kind == TokenKind::Literal
    &&& lexer::token_at(b, m.start - 1).end == m.end + 1
    &&& config_keys::is_arrow(b, config_keys::skip_trivia(b, m.end + 1))
    &&& exists|path: Seq<Seq<char>>|
        m.key == config_keys::dotted(prefix, #[trigger] path.push(text::between(b, m.start, m.end)))
}

/// Whether the path that is pending lies below the current one.
pub open spec fn pending_extends_path(s: config_keys::DeclarationState) -> bool {
    s.pending matches Some(p) ==> s.path.is_prefix_of(p)
}

/// What holds after the source has been read up to `i`.
pub open spec fn is_consistent(
    b: Seq<u8>,
    prefix: Seq<char>,
    i: int,
    s: config_keys::DeclarationState,
) -> bool {
    &&& is_apart(s.found)
    &&& forall|k: int| 0 <= k < s.found.len() ==> 0 < (#[trigger] s.found[k]).start <= s.found[k].end < i
    &&& forall|k: int| 0 <= k < s.found.len() ==> is_declared(b, prefix, #[trigger] s.found[k])
    &&& pending_extends_path(s)
}

/// Reading a token keeps what holds.
proof fn lemma_read_token(
    b: Seq<u8>,
    prefix: Seq<char>,
    i: int,
    s: config_keys::DeclarationState,
)
    requires
        0 <= i < b.len(),
        is_consistent(b, prefix, i, s),
    ensures
        is_consistent(
            b,
            prefix,
            lexer::token_at(b, i).end,
            config_keys::read_token(b, prefix, s, lexer::token_at(b, i)),
        ),
{
    let t = lexer::token_at(b, i);
    lexer::lemma_token_at(b, i);
    let next = config_keys::read_token(b, prefix, s, t);
    if t.kind == TokenKind::Literal && config_keys::is_arrow(b, config_keys::skip_trivia(b, t.end)) {
        let m = next.found.last();
        assert(next.found == s.found.push(m));
        assert(m.key == config_keys::dotted(
            prefix,
            s.path.push(text::between(b, m.start, m.end)),
        ));
        assert(is_declared(b, prefix, m));
    } else if t.kind == TokenKind::Other && s.frames.len() > 0 && s.pending is Some {
        let p = s.pending->0;
        let left = config_keys::leave_array(s);
        assert(left.path.is_prefix_of(p)) by {
            assert(s.path =~= p.take(s.path.len() as int));
        }
    }
}

/// Reading the tokens of a source from `i` on keeps what holds: the keys found so far are spelled in
/// order, and the path that is pending lies below the current one.
pub proof fn law_reading_is_consistent(
    b: Seq<u8>,
    prefix: Seq<char>,
    i: int,
    s: config_keys::DeclarationState,
)
    requires
        0 <= i <= b.len(),
        is_consistent(b, prefix, i, s),
    ensures
        is_consistent(
            b,
            prefix,
            b.len() as int,
            config_keys::read_tokens(b, prefix, s, lexer::tokens(b, i)),
        ),
    decreases b.len() - i,
{
    let ts = lexer::tokens(b, i);
    if i < b.len() {
        let t = lexer::token_at(b, i);
        lexer::lemma_token_at(b, i);
        lemma_read_token(b, prefix, i, s);
        let next = config_keys::read_token(b, prefix, s, t);
        law_reading_is_consistent(b, prefix, t.end, next);
        assert(ts == seq![t] + lexer::tokens(b, t.end));
        assert(ts.drop_first() =~= lexer::tokens(b, t.end));
    }
}

/// A dotted key begins with its prefix and a dot, and ends with a dot and its last part.
pub proof fn lemma_dotted(prefix: Seq<char>, parts: Seq<Seq<char>>)
    requires
        parts.len() > 0,
    ensures
        prefix.push('.').is_prefix_of(config_keys::dotted(prefix, parts)),
        (seq!['.'] + parts.last()).is_suffix_of(config_keys::dotted(prefix, parts)),
    decreases parts.len(),
{
    let key = config_keys::dotted(prefix, parts);
    let init = config_keys::dotted(prefix, parts.drop_last());
    assert(key == init.push('.') + parts.last());
    assert(key.skip(init.len() as int) =~= seq!['.'] + parts.last());
    assert((seq!['.'] + parts.last()) =~= key.subrange(
        key.len() - (seq!['.'] + parts.last()).len(),
        key.len() as int,
    ));
    if parts.len() == 1 {
        assert(init == prefix);
        assert(key.take(prefix.len() as int + 1) =~= prefix.push('.'));
    } else {
        lemma_dotted(prefix, parts.drop_last());
        assert(init.take(prefix.len() as int + 1) =~= prefix.push('.'));
        assert(key.take(prefix.len() as int + 1) =~= prefix.push('.'));
    }
}

/// Every key that a configuration file declares begins with the file's prefix and a dot, and ends with
/// a dot and the text of its span; that text is a string literal with `=>` behind it. The spans are in
/// the order of the source, with a byte between two of them.
pub proof fn law_declarations_are_spelled(b: Seq<u8>, prefix: Seq<char>)
    ensures
        ({
            let ds = config_keys::declarations(b, prefix);
            &&& forall|k: int|
                0 <= k < ds.len() ==> {
                    &&& is_declared(b, prefix, #[trigger] ds[k])
                    &&& prefix.push('.').is_prefix_of(ds[k].key)
                    &&& (seq!['.'] + text::between(b, ds[k].start, ds[k].end)).is_suffix_of(
                        ds[k].key,
                    )
                }
            &&& is_apart(ds)
            &&& is_within(ds, b, 0)
        }),
{
    let s = config_keys::start_state();
    assert(is_consistent(b, prefix, 0, s));
    law_reading_is_consistent(b, prefix, 0, s);
    let ds = config_keys::declarations(b, prefix);
    assert forall|k: int| 0 <= k < ds.len() implies {
        &&& is_declared(b, prefix, #[trigger] ds[k])
        &&& prefix.push('.').is_prefix_of(ds[k].key)
        &&& (seq!['.'] + text::between(b, ds[k].start, ds[k].end)).is_suffix_of(ds[k].key)
    } by {
        let part = text::between(b, ds[k].start, ds[k].end);
        let path = choose|path: Seq<Seq<char>>|
            ds[k].key == config_keys::dotted(prefix, #[trigger] path.push(part));
        lemma_dotted(prefix, path.push(part));
        assert(path.push(part).last() == part);
    }
}

/// From every offset of a declared key, and from just behind it, that declaration is found.
pub proof fn law_declaration_is_found_under_cursor(
    b: Seq<u8>,
    prefix: Seq<char>,
    k: int,
    offset: int,
)
    requires
        0 <= k < config_keys::declarations(b, prefix).len(),
        config_keys::covers(config_keys::declarations(b, prefix)[k], offset),
    ensures
        config_keys::first_covering(config_keys::declarations(b, prefix), offset) == Some(
            config_keys::declarations(b, prefix)[k],
        ),
{
    law_declarations_are_spelled(b, prefix);
    lemma_first_covering(config_keys::declarations(b, prefix), k, offset);
}

/// Behind an array the keys go on below the path that led to it, and within the same arrays.
pub proof fn law_array_restores_path(s: config_keys::DeclarationState, close: u8)
    requires
        pending_extends_path(s),
        s.path.len() <= usize::MAX,
    ensures
        ({
            let after = config_keys::leave_array(config_keys::enter_array(s, close));
            after.path == s.path && after.frames == s.frames && after.found == s.found
        }),
{
    let after = config_keys::leave_array(config_keys::enter_array(s, close));
    assert(after.path =~= s.path);
    assert(after.frames =~= s.frames);
}

/// A word starts at or before the bytes in it.
proof fn lemma_word_before(b: Seq<u8>, i: int)
    requires
        0 <= i,
    ensures
        0 <= config_keys::word_before(b, i) <= i,
    decreases i,
{
    if 0 < i <= b.len() && (text::is_alphanumeric(b[i - 1]) || b[i - 1] == 0x5f) {
        lemma_word_before(b, i - 1);
    }
}

/// The bytes of the word `array` are letters.
pub proof fn lemma_array_word_letter(b: Seq<u8>, i: int)
    requires
        0 <= i < b.len(),
        config_keys::paren_of_array_word(b, i) is Some,
    ensures
        text::lower(b[i]) == 0x61 || text::lower(b[i]) == 0x72 || text::lower(b[i]) == 0x79,
{
    let start = config_keys::word_before(b, i);
    let word = "array".spec_bytes();
    lemma_word_before(b, i);
    reveal_strlit("array");
    is_ascii_chars_encode_utf8("array"@);
    assert(word.len() == 5);
    let k = i - start;
    assert(text::lower_all(b.subrange(start, start + 5))[k] == text::lower(b[i]));
    assert(text::lower_all(word)[k] == text::lower(word[k]));
}

/// The word `array` before its parenthesis leaves everything as it is, the pending path included, and
/// makes the parenthesis known.
pub proof fn law_array_word_keeps_pending_path(
    b: Seq<u8>,
    prefix: Seq<char>,
    s: config_keys::DeclarationState,
    i: int,
)
    requires
        0 <= i < b.len(),
        lexer::token_at(b, i).kind == TokenKind::Other,
        config_keys::paren_of_array_word(b, i) is Some,
        s.frames.len() > 0 ==> s.frames.last().close == 0x5d || s.frames.last().close == 0x29,
    ensures
        config_keys::read_token(b, prefix, s, lexer::token_at(b, i)) == (
        config_keys::DeclarationState {
            array_paren: config_keys::paren_of_array_word(b, i),
            ..s
        }),
{
    lexer::lemma_token_at(b, i);
    lemma_array_word_letter(b, i);
}

/// A long array is entered like a short one: below the same path, and with nothing pending.
pub proof fn law_long_array_nests_like_short(
    b: Seq<u8>,
    prefix: Seq<char>,
    s: config_keys::DeclarationState,
    bracket: int,
    paren: int,
)
    requires
        0 <= bracket < b.len(),
        0 <= paren < b.len(),
        b[bracket] == 0x5b,
        b[paren] == 0x28,
        s.array_paren == Some(paren),
    ensures
        ({
            let short = config_keys::read_token(b, prefix, s, lexer::token_at(b, bracket));
            let long = config_keys::read_token(b, prefix, s, lexer::token_at(b, paren));
            &&& short.path == long.path
            &&& short.pending == long.pending
            &&& short.found == long.found
            &&& short.frames.len() == long.frames.len()
        }),
{
}

/// Whether two keys have the same span and differ only in the prefix that they begin with.
pub open spec fn is_same_below(m: KeySpan, n: KeySpan, p: Seq<char>, q: Seq<char>) -> bool {
    &&& m.start == n.start
    &&& m.end == n.end
    &&& p.is_prefix_of(m.key)
    &&& q.is_prefix_of(n.key)
    &&& m.key.skip(p.len() as int) == n.key.skip(q.len() as int)
}

/// Whether two states differ only in the prefix of the keys found so far.
spec fn is_state_alike(
    s: config_keys::DeclarationState,
    u: config_keys::DeclarationState,
    p: Seq<char>,
    q: Seq<char>,
) -> bool {
    &&& s.path == u.path
    &&& s.frames == u.frames
    &&& s.pending == u.pending
    &&& s.array_paren == u.array_paren
    &&& s.found.len() == u.found.len()
    &&& forall|k: int|
        0 <= k < s.found.len() ==> is_same_below(#[trigger] s.found[k], u.found[k], p, q)
}

/// What follows the prefix in a dotted key does not depend on the prefix.
proof fn lemma_dotted_below(p: Seq<char>, q: Seq<char>, parts: Seq<Seq<char>>)
    ensures
        p.is_prefix_of(config_keys::dotted(p, parts)),
        q.is_prefix_of(config_keys::dotted(q, parts)),
        config_keys::dotted(p, parts).skip(p.len() as int) == config_keys::dotted(q, parts).skip(
            q.len() as int,
        ),
    decreases parts.len(),
{
    let (x, y) = (config_keys::dotted(p, parts), config_keys::dotted(q, parts));
    let (m, n) = (p.len() as int, q.len() as int);
    if parts.len() == 0 {
        assert(x.take(m) =~= p && y.take(n) =~= q);
        assert(x.skip(m) =~= y.skip(n));
    } else {
        let init = parts.drop_last();
        let (a, b) = (config_keys::dotted(p, init), config_keys::dotted(q, init));
        lemma_dotted_below(p, q, init);
        assert(a.take(m) =~= p && b.take(n) =~= q);
        assert(x.take(m) =~= p && y.take(n) =~= q);
        assert(x.skip(m) =~= a.skip(m).push('.') + parts.last());
        assert(y.skip(n) =~= b.skip(n).push('.') + parts.last());
    }
}

/// Reading tokens under two prefixes gives states that differ only in the prefix.
proof fn lemma_read_alike(
    b: Seq<u8>,
    p: Seq<char>,
    q: Seq<char>,
    s: config_keys::DeclarationState,
    u: config_keys::DeclarationState,
    ts: Seq<lexer::Lexeme>,
)
    requires
        is_state_alike(s, u, p, q),
    ensures
        is_state_alike(
            config_keys::read_tokens(b, p, s, ts),
            config_keys::read_tokens(b, q, u, ts),
            p,
            q,
        ),
    decreases ts.len(),
{
    if ts.len() > 0 {
        let t = ts[0];
        let x = config_keys::read_token(b, p, s, t);
        let y = config_keys::read_token(b, q, u, t);
        let full = s.path.push(config_keys::literal_span(b, t).key);
        lemma_dotted_below(p, q, full);
        assert forall|k: int| 0 <= k < x.found.len() implies is_same_below(
            #[trigger] x.found[k],
            y.found[k],
            p,
            q,
        ) by {
            if k < s.found.len() {
                assert(is_same_below(s.found[k], u.found[k], p, q));
            }
        }
        assert(is_state_alike(x, y, p, q));
        lemma_read_alike(b, p, q, x, y, ts.drop_first());
    }
}

/// The prefix of a configuration file changes nothing but the head of the keys that it declares.
pub proof fn law_prefix_changes_only_heads(b: Seq<u8>, p: Seq<char>, q: Seq<char>)
    ensures
        config_keys::declarations(b, p).len() == config_keys::declarations(b, q).len(),
        forall|k: int|
            0 <= k < config_keys::declarations(b, p).len() ==> is_same_below(
                #[trigger] config_keys::declarations(b, p)[k],
                config_keys::declarations(b, q)[k],
                p,
                q,
            ),
{
    let s = config_keys::start_state();
    lemma_read_alike(b, p, q, s, s, lexer::tokens(b, 0));
}

} // verus!
