//! What holds of all configuration calls, told from the bytes of the source alone.
use vstd::prelude::*;
use vstd::string::*;
use vstd::utf8::*;

use crate::config_keys;
use crate::config_keys::KeySpan;
use crate::config_laws;
use crate::lexer;
use crate::lexer::TokenKind;
use crate::lexer_laws;
use crate::text;

verus! {

/// Whether a byte is a space, a tab, a line feed, a form feed or a carriage return.
pub open spec fn is_blank(b: u8) -> bool {
    b == 0x20 || b == 0x09 || b == 0x0a || b == 0x0c || b == 0x0d
}

/// Whether all bytes from `from` to `to` are blank.
pub open spec fn all_blank(b: Seq<u8>, from: int, to: int) -> bool {
    forall|k: int| from <= k < to ==> is_blank(#[trigger] b[k])
}

/// Whether a byte is an ASCII letter, a digit or an underscore.
pub open spec fn is_word_byte(b: u8) -> bool {
    0x61 <= b <= 0x7a || 0x41 <= b <= 0x5a || 0x30 <= b <= 0x39 || b == 0x5f
}

/// Whether a byte can be part of what is called: a letter, a digit, an underscore, a backslash or a
/// colon.
pub open spec fn is_callee_byte(b: u8) -> bool {
    is_word_byte(b) || b == 0x5c || b == 0x3a
}

/// Whether a byte is the character `c`, or the capital of the small letter `c`.
pub open spec fn is_letter(b: u8, c: char) -> bool {
    b as u32 == c as u32 || ('a' <= c <= 'z' && b as u32 + 0x20 == c as u32)
}

/// Whether the bytes from `from` to `to` spell a word of small letters and signs, in any case.
pub open spec fn spells_word(b: Seq<u8>, from: int, to: int, word: Seq<char>) -> bool {
    &&& 0 <= from <= to <= b.len()
    &&& to - from == word.len()
    &&& forall|k: int| 0 <= k < word.len() ==> is_letter(b[from + k], #[trigger] word[k])
}

/// Whether the bytes from `from` to `to` name the function `config` or the method `Config::get`, in any
/// case and with or without a leading backslash.
pub open spec fn names_config(b: Seq<u8>, from: int, to: int) -> bool {
    ||| spells_word(b, from, to, "config"@)
    ||| spells_word(b, from, to, "\\config"@)
    ||| spells_word(b, from, to, "config::get"@)
    ||| spells_word(b, from, to, "\\config::get"@)
}

/// Whether a configuration call stands before `quote`: its name, with nothing before it that could
/// belong to the name, a parenthesis, and blanks around that.
pub open spec fn call_stands_before(b: Seq<u8>, quote: int) -> bool {
    exists|start: int, end: int, open: int|
        #![trigger names_config(b, start, end), all_blank(b, end, open)]
        0 <= start < end <= open < quote <= b.len() && names_config(b, start, end) && all_blank(
            b,
            end,
            open,
        ) && b[open] == 0x28 && all_blank(b, open + 1, quote) && (start == 0 || !is_callee_byte(
            b[start - 1],
        ))
}

/// The blanks before a place, and what ends them.
proof fn lemma_spaces_before(b: Seq<u8>, i: int)
    requires
        0 <= i <= b.len(),
    ensures
        ({
            let j = config_keys::spaces_before(b, i);
            &&& 0 <= j <= i
            &&& all_blank(b, j, i)
            &&& j > 0 ==> !is_blank(b[j - 1])
        }),
    decreases i,
{
    if 0 < i && text::is_space(b[i - 1]) {
        lemma_spaces_before(b, i - 1);
    }
}

/// Blanks that something else ends are all the blanks before a place.
proof fn lemma_spaces_are(b: Seq<u8>, j: int, i: int)
    requires
        0 <= j <= i <= b.len(),
        all_blank(b, j, i),
        j > 0 ==> !is_blank(b[j - 1]),
    ensures
        config_keys::spaces_before(b, i) == j,
    decreases i,
{
    if j < i {
        assert(is_blank(b[i - 1]));
        lemma_spaces_are(b, j, i - 1);
    }
}

/// The callee before a place, and what ends it.
proof fn lemma_callee_before(b: Seq<u8>, i: int)
    requires
        0 <= i <= b.len(),
    ensures
        ({
            let j = config_keys::callee_before(b, i);
            &&& 0 <= j <= i
            &&& forall|k: int| j <= k < i ==> is_callee_byte(#[trigger] b[k])
            &&& j > 0 ==> !is_callee_byte(b[j - 1])
        }),
    decreases i,
{
    if 0 < i && config_keys::is_callee_char(b[i - 1]) {
        lemma_callee_before(b, i - 1);
    }
}

/// Bytes of a callee that something else ends are all of it.
proof fn lemma_callee_is(b: Seq<u8>, j: int, i: int)
    requires
        0 <= j <= i <= b.len(),
        forall|k: int| j <= k < i ==> is_callee_byte(#[trigger] b[k]),
        j > 0 ==> !is_callee_byte(b[j - 1]),
    ensures
        config_keys::callee_before(b, i) == j,
    decreases i,
{
    if j < i {
        assert(is_callee_byte(b[i - 1]));
        lemma_callee_is(b, j, i - 1);
    }
}

/// A word that bytes spell is the one that they are without regard to case.
proof fn lemma_spells_word(b: Seq<u8>, from: int, to: int, word: Seq<char>)
    requires
        0 <= from <= to <= b.len(),
        forall|k: int|
            0 <= k < word.len() ==> ({
                let c = #[trigger] word[k];
                'a' <= c <= 'z' || c == '\\' || c == ':'
            }),
    ensures
        spells_word(b, from, to, word) <==> text::same_ignoring_case(
            b.subrange(from, to),
            encode_utf8(word),
        ),
{
    assert(is_ascii_chars(word)) by {
        assert forall|k: int| 0 <= k < word.len() implies (word[k] as u32) < 0x80 by {
            let c = word[k];
        }
    }
    is_ascii_chars_encode_utf8(word);
    let e = encode_utf8(word);
    let part = b.subrange(from, to);
    let (x, y) = (text::lower_all(part), text::lower_all(e));
    if spells_word(b, from, to, word) {
        assert forall|k: int| 0 <= k < x.len() implies x[k] == y[k] by {
            let c = word[k];
            assert(c as u8 == e[k]);
            assert(is_letter(b[from + k], c));
            assert(part[k] == b[from + k]);
        }
        assert(x =~= y);
    }
    if text::same_ignoring_case(part, e) {
        assert(x.len() == y.len());
        assert forall|k: int| 0 <= k < word.len() implies is_letter(
            b[from + k],
            #[trigger] word[k],
        ) by {
            let c = word[k];
            assert(c as u8 == e[k]);
            assert(x[k] == y[k]);
            assert(part[k] == b[from + k]);
        }
    }
}

/// The names of the function and the method are read without regard to case.
proof fn lemma_names_config(b: Seq<u8>, from: int, to: int)
    requires
        0 <= from <= to <= b.len(),
    ensures
        names_config(b, from, to) <==> config_keys::is_config_callee(b.subrange(from, to)),
        names_config(b, from, to) ==> from < to && forall|k: int|
            from <= k < to ==> is_callee_byte(#[trigger] b[k]),
        names_config(b, from, to) ==> !is_blank(b[to - 1]),
{
    reveal_strlit("config");
    reveal_strlit("\\config");
    reveal_strlit("config::get");
    reveal_strlit("\\config::get");
    lemma_spells_word(b, from, to, "config"@);
    lemma_spells_word(b, from, to, "\\config"@);
    lemma_spells_word(b, from, to, "config::get"@);
    lemma_spells_word(b, from, to, "\\config::get"@);
    if names_config(b, from, to) {
        let word = if spells_word(b, from, to, "config"@) {
            "config"@
        } else if spells_word(b, from, to, "\\config"@) {
            "\\config"@
        } else if spells_word(b, from, to, "config::get"@) {
            "config::get"@
        } else {
            "\\config::get"@
        };
        assert(spells_word(b, from, to, word));
        assert forall|k: int| from <= k < to implies is_callee_byte(#[trigger] b[k]) by {
            let c = word[k - from];
            assert(is_letter(b[from + (k - from)], c));
        }
        assert(is_callee_byte(b[to - 1]));
    }
}

/// A configuration call is seen exactly where one stands.
pub proof fn law_configuration_calls_are_seen(b: Seq<u8>, quote: int)
    requires
        0 <= quote <= b.len(),
    ensures
        config_keys::is_config_call(b, quote) <==> call_stands_before(b, quote),
{
    if config_keys::is_config_call(b, quote) {
        let after = config_keys::spaces_before(b, quote);
        let open = after - 1;
        lemma_spaces_before(b, quote);
        let end = config_keys::spaces_before(b, open);
        lemma_spaces_before(b, open);
        let start = config_keys::callee_before(b, end);
        lemma_callee_before(b, end);
        lemma_names_config(b, start, end);
        assert(names_config(b, start, end) && all_blank(b, end, open));
    }
    if call_stands_before(b, quote) {
        let (start, end, open) = choose|start: int, end: int, open: int|
            #![trigger names_config(b, start, end), all_blank(b, end, open)]
            0 <= start < end <= open < quote <= b.len() && names_config(b, start, end)
                && all_blank(b, end, open) && b[open] == 0x28 && all_blank(b, open + 1, quote) && (
            start == 0 || !is_callee_byte(b[start - 1]));
        lemma_names_config(b, start, end);
        lemma_spaces_are(b, open + 1, quote);
        lemma_spaces_are(b, end, open);
        lemma_callee_is(b, start, end);
    }
}

/// Whether the token `k` of a source is a string that a configuration call is given as its first
/// argument, and `m` is what stands between its quotes: neither empty nor interpolated.
pub open spec fn token_is_usage(b: Seq<u8>, k: int, m: KeySpan) -> bool {
    let ts = lexer::tokens(b, 0);
    &&& 0 <= k < ts.len()
    &&& ts[k].kind == TokenKind::Literal
    &&& call_stands_before(b, ts[k].start)
    &&& m.start == ts[k].start + 1
    &&& m.end == ts[k].end - 1
    &&& m.key == decode_utf8(b.subrange(m.start, m.end))
    &&& m.key.len() > 0
    &&& !m.key.contains('$')
}

/// The usages of a source are exactly the strings that configuration calls are given.
pub proof fn law_usages_are_all_configuration_calls(b: Seq<u8>, m: KeySpan)
    ensures
        config_keys::usages(b).contains(m) <==> exists|k: int| #[trigger] token_is_usage(b, k, m),
{
    let ts = lexer::tokens(b, 0);
    let us = config_keys::usages(b);
    let p = |t: lexer::Lexeme| config_keys::is_usage(b, t);
    let kept = ts.filter(p);
    config_laws::law_tokens_tile(b, 0);
    if us.contains(m) {
        let i = us.index_of(m);
        assert(us[i] == config_keys::literal_span(b, kept[i]));
        ts.lemma_filter_pred(p, i);
        text::lemma_filtered_from(ts, p, i);
        let k = choose|k: int| 0 <= k < ts.len() && ts[k] == kept[i];
        law_configuration_calls_are_seen(b, ts[k].start);
        assert(token_is_usage(b, k, m));
    }
    if exists|k: int| #[trigger] token_is_usage(b, k, m) {
        let k = choose|k: int| #[trigger] token_is_usage(b, k, m);
        law_configuration_calls_are_seen(b, ts[k].start);
        assert(p(ts[k]));
        ts.lemma_filter_contains(p, k);
        let i = kept.index_of(ts[k]);
        assert(us[i] == m);
    }
}

/// With a target, exactly the matches with that key are kept, in their order.
pub proof fn law_target_keeps_matching_keys(ms: Seq<KeySpan>, more: Seq<KeySpan>, key: Seq<char>, m: KeySpan)
    ensures
        config_keys::with_key(ms, None) == ms,
        config_keys::with_key(ms, Some(key)).contains(m) <==> ms.contains(m) && m.key == key,
        config_keys::with_key(ms + more, Some(key)) == config_keys::with_key(ms, Some(key))
            + config_keys::with_key(more, Some(key)),
{
    let wanted = |x: KeySpan| x.key == key;
    let kept = ms.filter(wanted);
    Seq::filter_distributes_over_add(ms, more, wanted);
    if kept.contains(m) {
        let i = kept.index_of(m);
        ms.lemma_filter_pred(wanted, i);
        text::lemma_filtered_from(ms, wanted, i);
    }
    if ms.contains(m) && m.key == key {
        let i = ms.index_of(m);
        ms.lemma_filter_contains(wanted, i);
    }
}

/// What is found under the cursor is the first match that the cursor touches, its end included.
pub proof fn law_first_match_under_cursor_is_found(ms: Seq<KeySpan>, offset: int, m: KeySpan)
    ensures
        config_keys::first_covering(ms, offset) == Some(m) <==> exists|i: int|
            0 <= i < ms.len() && #[trigger] ms[i] == m && m.start <= offset <= m.end && (forall|j: int|
                0 <= j < i ==> !((#[trigger] ms[j]).start <= offset <= ms[j].end)),
    decreases ms.len(),
{
    if ms.len() > 0 {
        let rest = ms.drop_first();
        law_first_match_under_cursor_is_found(rest, offset, m);
        if ms[0].start <= offset <= ms[0].end {
            if config_keys::first_covering(ms, offset) == Some(m) {
                assert(ms[0] == m);
            }
        } else {
            if config_keys::first_covering(rest, offset) == Some(m) {
                let i = choose|i: int|
                    0 <= i < rest.len() && #[trigger] rest[i] == m && m.start <= offset <= m.end && (
                    forall|j: int|
                        0 <= j < i ==> !((#[trigger] rest[j]).start <= offset <= rest[j].end));
                assert(ms[i + 1] == m);
                assert forall|j: int| 0 <= j < i + 1 implies !((#[trigger] ms[j]).start <= offset
                    <= ms[j].end) by {
                    if j > 0 {
                        assert(rest[j - 1] == ms[j]);
                    }
                }
            }
            if exists|i: int|
                0 <= i < ms.len() && #[trigger] ms[i] == m && m.start <= offset <= m.end && (
                forall|j: int|
                    0 <= j < i ==> !((#[trigger] ms[j]).start <= offset <= ms[j].end)) {
                let i = choose|i: int|
                    0 <= i < ms.len() && #[trigger] ms[i] == m && m.start <= offset <= m.end && (
                    forall|j: int|
                        0 <= j < i ==> !((#[trigger] ms[j]).start <= offset <= ms[j].end));
                assert(i > 0);
                assert(rest[i - 1] == m);
                assert forall|j: int| 0 <= j < i - 1 implies !((#[trigger] rest[j]).start <= offset
                    <= rest[j].end) by {
                    assert(rest[j] == ms[j + 1]);
                }
            }
        }
    }
}

/// The key under the cursor is that of a usage, if one is there; else that of a declaration, where the
/// document has a prefix; and there is none otherwise.
pub proof fn law_usage_comes_before_declaration(
    b: Seq<u8>,
    prefix: Option<Seq<char>>,
    offset: int,
)
    ensures
        ({
            let used = config_keys::first_covering(config_keys::usages(b), offset);
            let key = config_keys::key_under_cursor(b, prefix, offset);
            &&& used matches Some(m) ==> key == Some(m.key)
            &&& used is None && prefix is None ==> key is None
            &&& used is None && prefix is Some ==> {
                let declared = config_keys::first_covering(
                    config_keys::declarations(b, prefix->0),
                    offset,
                );
                &&& declared matches Some(m) ==> key == Some(m.key)
                &&& declared is None ==> key is None
            }
        }),
{
}

/// What is skipped at a place depends only on what stands there: a blank is skipped, and so is a
/// comment up to its end; anything else is not.
pub proof fn law_blanks_and_comments_are_skipped(b: Seq<u8>, i: int)
    requires
        0 <= i < b.len(),
    ensures
        is_blank(b[i]) ==> config_keys::skip_trivia(b, i) == config_keys::skip_trivia(b, i + 1),
        forall|e: int|
            #![trigger config_keys::skip_trivia(b, e)]
            (b[i] == 0x23 || lexer_laws::pair_at(b, i, 0x2f, 0x2f)) && i < e <= b.len() && b[e - 1]
                == 0x0a && (forall|k: int| i <= k < e - 1 ==> #[trigger] b[k] != 0x0a)
                ==> config_keys::skip_trivia(b, i) == config_keys::skip_trivia(b, e),
        forall|e: int|
            #![trigger config_keys::skip_trivia(b, e)]
            lexer_laws::pair_at(b, i, 0x2f, 0x2a) && i + 4 <= e <= b.len() && lexer_laws::pair_at(
                b,
                e - 2,
                0x2a,
                0x2f,
            ) && (forall|k: int|
                i + 2 <= k < e - 2 ==> !#[trigger] lexer_laws::pair_at(b, k, 0x2a, 0x2f))
                ==> config_keys::skip_trivia(b, i) == config_keys::skip_trivia(b, e),
        !is_blank(b[i]) && b[i] != 0x23 && !lexer_laws::pair_at(b, i, 0x2f, 0x2f)
            && !lexer_laws::pair_at(b, i, 0x2f, 0x2a) ==> config_keys::skip_trivia(b, i) == i,
{
    assert forall|e: int|
        #![trigger config_keys::skip_trivia(b, e)]
        (b[i] == 0x23 || lexer_laws::pair_at(b, i, 0x2f, 0x2f)) && i < e <= b.len() && b[e - 1]
            == 0x0a && (forall|k: int|
            i <= k < e - 1 ==> #[trigger] b[k] != 0x0a) implies config_keys::skip_trivia(b, i)
        == config_keys::skip_trivia(b, e) by {
        let from = if b[i] == 0x23 {
            i + 1
        } else {
            i + 2
        };
        lemma_line_end_at(b, from, e);
    }
    assert forall|e: int|
        #![trigger config_keys::skip_trivia(b, e)]
        lexer_laws::pair_at(b, i, 0x2f, 0x2a) && i + 4 <= e <= b.len() && lexer_laws::pair_at(
            b,
            e - 2,
            0x2a,
            0x2f,
        ) && (forall|k: int|
            i + 2 <= k < e - 2 ==> !#[trigger] lexer_laws::pair_at(
                b,
                k,
                0x2a,
                0x2f,
            )) implies config_keys::skip_trivia(b, i) == config_keys::skip_trivia(b, e) by {
        lemma_block_stop_at(b, i + 2, e);
    }
}

/// A line ends just behind its first line feed.
proof fn lemma_line_end_at(b: Seq<u8>, i: int, e: int)
    requires
        0 <= i < e <= b.len(),
        b[e - 1] == 0x0a,
        forall|k: int| i <= k < e - 1 ==> #[trigger] b[k] != 0x0a,
    ensures
        lexer::line_end(b, i) == e,
    decreases e - i,
{
    if i < e - 1 {
        assert(b[i] != 0x0a);
        lemma_line_end_at(b, i + 1, e);
    }
}

/// The search for the end of a block comment stops just behind the first `*/`.
proof fn lemma_block_stop_at(b: Seq<u8>, i: int, e: int)
    requires
        0 <= i,
        i + 2 <= e <= b.len(),
        lexer_laws::pair_at(b, e - 2, 0x2a, 0x2f),
        forall|k: int| i <= k < e - 2 ==> !#[trigger] lexer_laws::pair_at(b, k, 0x2a, 0x2f),
    ensures
        config_keys::block_stop(b, i) == e,
    decreases e - i,
{
    if i < e - 2 {
        assert(!lexer_laws::pair_at(b, i, 0x2a, 0x2f));
        lemma_block_stop_at(b, i + 1, e);
    }
}

/// Whether the word `array`, in any case and as a word of its own, stands before `paren`, blanks aside.
pub open spec fn array_stands_before(b: Seq<u8>, paren: int) -> bool {
    exists|start: int, end: int|
        #![trigger spells_word(b, start, end, "array"@)]
        0 <= start < end <= paren <= b.len() && spells_word(b, start, end, "array"@) && all_blank(
            b,
            end,
            paren,
        ) && (start == 0 || !is_word_byte(b[start - 1]))
}

/// The word before a place, and what ends it.
proof fn lemma_word_before(b: Seq<u8>, i: int)
    requires
        0 <= i <= b.len(),
    ensures
        ({
            let j = config_keys::word_before(b, i);
            &&& 0 <= j <= i
            &&& forall|k: int| j <= k < i ==> is_word_byte(#[trigger] b[k])
            &&& j > 0 ==> !is_word_byte(b[j - 1])
        }),
    decreases i,
{
    if 0 < i && (text::is_alphanumeric(b[i - 1]) || b[i - 1] == 0x5f) {
        lemma_word_before(b, i - 1);
    }
}

/// Bytes of a word that something else ends are all of it.
pub proof fn lemma_word_is(b: Seq<u8>, j: int, i: int)
    requires
        0 <= j <= i <= b.len(),
        forall|k: int| j <= k < i ==> is_word_byte(#[trigger] b[k]),
        j > 0 ==> !is_word_byte(b[j - 1]),
    ensures
        config_keys::word_before(b, i) == j,
    decreases i,
{
    if j < i {
        assert(is_word_byte(b[i - 1]));
        lemma_word_is(b, j, i - 1);
    }
}

/// A parenthesis is taken for that of a long array exactly if the word `array` stands before it.
pub proof fn law_long_arrays_are_seen(b: Seq<u8>, paren: int)
    requires
        0 <= paren <= b.len(),
    ensures
        config_keys::is_array_call(b, paren) <==> array_stands_before(b, paren),
{
    let word = "array"@;
    reveal_strlit("array");
    if config_keys::is_array_call(b, paren) {
        let end = config_keys::spaces_before(b, paren);
        lemma_spaces_before(b, paren);
        let start = config_keys::word_before(b, end);
        lemma_word_before(b, end);
        lemma_spells_word(b, start, end, word);
        assert(spells_word(b, start, end, word));
    }
    if array_stands_before(b, paren) {
        let (start, end) = choose|start: int, end: int|
            #![trigger spells_word(b, start, end, "array"@)]
            0 <= start < end <= paren <= b.len() && spells_word(b, start, end, "array"@)
                && all_blank(b, end, paren) && (start == 0 || !is_word_byte(b[start - 1]));
        lemma_spells_word(b, start, end, word);
        assert forall|k: int| start <= k < end implies is_word_byte(#[trigger] b[k]) by {
            let c = word[k - start];
            assert(is_letter(b[start + (k - start)], c));
        }
        assert(is_word_byte(b[end - 1]));
        lemma_spaces_are(b, end, paren);
        lemma_word_is(b, start, end);
    }
}

/// Whether the byte at `i` belongs to the word `array`, in any case, as a word of its own at `start`,
/// and the parenthesis behind that word, blanks and comments aside, stands at `paren`.
pub open spec fn array_word_leads_to(b: Seq<u8>, i: int, start: int, paren: int) -> bool {
    &&& 0 <= start <= i < start + 5 <= b.len()
    &&& spells_word(b, start, start + 5, "array"@)
    &&& start == 0 || !is_word_byte(b[start - 1])
    &&& paren == config_keys::skip_trivia(b, start + 5)
    &&& paren < b.len() && b[paren] == 0x28
}

/// The letters of the word `array` lead to the parenthesis behind it, and nothing else does.
pub proof fn law_array_words_lead_to_parenthesis(b: Seq<u8>, i: int, paren: int)
    requires
        0 <= i < b.len(),
    ensures
        config_keys::paren_of_array_word(b, i) == Some(paren) <==> exists|start: int| #[trigger]
            array_word_leads_to(b, i, start, paren),
{
    let word = "array"@;
    reveal_strlit("array");
    lemma_word_before(b, i);
    if config_keys::paren_of_array_word(b, i) == Some(paren) {
        let start = config_keys::word_before(b, i);
        lemma_spells_word(b, start, start + 5, word);
        assert(array_word_leads_to(b, i, start, paren));
    }
    if exists|start: int| #[trigger] array_word_leads_to(b, i, start, paren) {
        let start = choose|start: int| #[trigger] array_word_leads_to(b, i, start, paren);
        lemma_spells_word(b, start, start + 5, word);
        assert forall|k: int| start <= k < i implies is_word_byte(#[trigger] b[k]) by {
            let c = word[k - start];
            assert(is_letter(b[start + (k - start)], c));
        }
        lemma_word_is(b, start, i);
    }
}

/// A line comment that no line feed ends goes on to the end of the source. A block comment that nothing
/// closes is skipped up to the last byte of the source, or just its opening where no more is left.
/// Behind the source there is nothing to skip.
pub proof fn law_open_comments_reach_the_end(b: Seq<u8>, i: int)
    requires
        0 <= i,
    ensures
        i >= b.len() ==> config_keys::skip_trivia(b, i) == i,
        i < b.len() && (b[i] == 0x23 || lexer_laws::pair_at(b, i, 0x2f, 0x2f)) && (forall|k: int|
            i <= k < b.len() ==> #[trigger] b[k] != 0x0a) ==> config_keys::skip_trivia(b, i)
            == b.len(),
        lexer_laws::pair_at(b, i, 0x2f, 0x2a) && (forall|k: int|
            i + 2 <= k ==> !#[trigger] lexer_laws::pair_at(b, k, 0x2a, 0x2f))
            ==> config_keys::skip_trivia(b, i) == config_keys::skip_trivia(
            b,
            if i + 2 < b.len() {
                b.len() - 1
            } else {
                i + 2
            },
        ),
{
    if i < b.len() && (b[i] == 0x23 || lexer_laws::pair_at(b, i, 0x2f, 0x2f)) && (forall|k: int|
        i <= k < b.len() ==> #[trigger] b[k] != 0x0a) {
        let from = if b[i] == 0x23 {
            i + 1
        } else {
            i + 2
        };
        lemma_line_without_end(b, from);
        assert(config_keys::skip_trivia(b, b.len() as int) == b.len());
    }
    if lexer_laws::pair_at(b, i, 0x2f, 0x2a) && (forall|k: int|
        i + 2 <= k ==> !#[trigger] lexer_laws::pair_at(b, k, 0x2a, 0x2f)) {
        lemma_block_without_end(b, i + 2);
    }
}

/// Without a line feed a line ends with the source.
proof fn lemma_line_without_end(b: Seq<u8>, i: int)
    requires
        0 <= i <= b.len(),
        forall|k: int| i <= k < b.len() ==> #[trigger] b[k] != 0x0a,
    ensures
        lexer::line_end(b, i) == b.len(),
    decreases b.len() - i,
{
    if i < b.len() {
        assert(b[i] != 0x0a);
        lemma_line_without_end(b, i + 1);
    }
}

/// Without `*/` the search stops at the last byte.
proof fn lemma_block_without_end(b: Seq<u8>, i: int)
    requires
        0 <= i <= b.len(),
        forall|k: int| i <= k ==> !#[trigger] lexer_laws::pair_at(b, k, 0x2a, 0x2f),
    ensures
        config_keys::block_stop(b, i) == (if i < b.len() {
            b.len() - 1
        } else {
            i
        }),
    decreases b.len() - i,
{
    if i + 1 < b.len() {
        assert(!lexer_laws::pair_at(b, i, 0x2a, 0x2f));
        lemma_block_without_end(b, i + 1);
    }
}

/// A match with the target key is kept once.
pub proof fn law_match_is_kept_once(m: KeySpan, key: Seq<char>)
    ensures
        config_keys::with_key(seq![m], Some(key)) == (if m.key == key {
            seq![m]
        } else {
            Seq::empty()
        }),
{
    reveal(Seq::filter);
    let kept = |x: KeySpan| x.key == key;
    assert(seq![m].drop_last() =~= Seq::empty());
    assert(seq![m].drop_last().filter(kept) =~= Seq::empty());
    assert(seq![m].last() == m);
    assert(seq![m].filter(kept) =~= (if m.key == key {
        seq![m]
    } else {
        Seq::empty()
    }));
}

} // verus!
