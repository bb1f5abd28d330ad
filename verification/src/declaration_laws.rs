//! What configuration files declare, told from what was written into them.
use vstd::prelude::*;
use vstd::string::*;
use vstd::utf8::*;

use crate::config_keys;
use crate::config_keys::DeclarationState;
use crate::config_keys::KeySpan;
use crate::config_laws;
use crate::lexer;
use crate::lexer::TokenKind;
use crate::lexer_laws;
use crate::text;
use crate::usage_laws;

verus! {

/// A value in a configuration file: a number, a text, or an array in brackets or behind the word
/// `array`.
pub enum ConfigValue {
    Number(Seq<u8>),
    Text(Seq<u8>),
    Short(Seq<ConfigEntry>),
    Long(Seq<ConfigEntry>),
}

/// A key of an array with its value.
pub struct ConfigEntry {
    pub key: Seq<u8>,
    pub value: ConfigValue,
}

/// Whether bytes can stand between single quotes as they are.
pub open spec fn is_plain_text(t: Seq<u8>) -> bool {
    forall|k: int| 0 <= k < t.len() ==> #[trigger] t[k] != 0x27 && t[k] != 0x5c
}

/// Whether a value can be written: numbers are digits, and texts and keys can stand between quotes.
pub open spec fn is_writable(v: ConfigValue) -> bool
    decreases v,
{
    match v {
        ConfigValue::Number(d) => d.len() > 0 && forall|k: int|
            0 <= k < d.len() ==> 0x30 <= #[trigger] d[k] <= 0x39,
        ConfigValue::Text(t) => is_plain_text(t),
        ConfigValue::Short(es) => are_writable(es),
        ConfigValue::Long(es) => are_writable(es),
    }
}

/// Whether the entries of an array can be written.
pub open spec fn are_writable(es: Seq<ConfigEntry>) -> bool
    decreases es,
{
    es.len() > 0 ==> is_plain_text(es[0].key) && is_writable(es[0].value) && are_writable(
        es.drop_first(),
    )
}

/// The letters of `array` and the parenthesis behind them.
pub open spec fn long_opening() -> Seq<u8> {
    seq![0x61u8, 0x72, 0x72, 0x61, 0x79, 0x28]
}

/// How a value is written.
pub open spec fn written(v: ConfigValue) -> Seq<u8>
    decreases v,
{
    match v {
        ConfigValue::Number(d) => d,
        ConfigValue::Text(t) => seq![0x27u8] + t + seq![0x27u8],
        ConfigValue::Short(es) => seq![0x5bu8] + all_written(es) + seq![0x5du8],
        ConfigValue::Long(es) => long_opening() + all_written(es) + seq![0x29u8],
    }
}

/// How the entries of an array are written: `'key' => value,` each.
pub open spec fn all_written(es: Seq<ConfigEntry>) -> Seq<u8>
    decreases es,
{
    if es.len() == 0 {
        Seq::empty()
    } else {
        (seq![0x27u8] + es[0].key + seq![0x27u8, 0x20, 0x3d, 0x3e, 0x20] + written(es[0].value)
            + seq![0x2cu8]) + all_written(es.drop_first())
    }
}

/// The keys in a value that is written at `at`, below `path`.
pub open spec fn keys_in(
    v: ConfigValue,
    prefix: Seq<char>,
    path: Seq<Seq<char>>,
    at: int,
) -> Seq<KeySpan>
    decreases v,
{
    match v {
        ConfigValue::Number(_) => Seq::empty(),
        ConfigValue::Text(_) => Seq::empty(),
        ConfigValue::Short(es) => keys_of(es, prefix, path, at + 1),
        ConfigValue::Long(es) => keys_of(es, prefix, path, at + 6),
    }
}

/// The keys of entries that are written at `at`, below `path`: each key, and behind it those in its
/// value, below it.
pub open spec fn keys_of(
    es: Seq<ConfigEntry>,
    prefix: Seq<char>,
    path: Seq<Seq<char>>,
    at: int,
) -> Seq<KeySpan>
    decreases es,
{
    if es.len() == 0 {
        Seq::empty()
    } else {
        let inner = path.push(decode_utf8(es[0].key));
        let n = es[0].key.len() as int;
        seq![
            KeySpan {
                key: config_keys::dotted(prefix, inner),
                start: at + 1,
                end: at + 1 + n,
            },
        ] + keys_in(es[0].value, prefix, inner, at + n + 6) + keys_of(
            es.drop_first(),
            prefix,
            path,
            at + n + 7 + written(es[0].value).len(),
        )
    }
}

/// Whether bytes stand in a source at `i`.
pub open spec fn stands(b: Seq<u8>, i: int, x: Seq<u8>) -> bool {
    0 <= i && i + x.len() <= b.len() && b.subrange(i, i + x.len()) == x
}

/// Parts stand where their whole stands.
proof fn lemma_parts(b: Seq<u8>, i: int, x: Seq<u8>, y: Seq<u8>)
    requires
        stands(b, i, x + y),
    ensures
        stands(b, i, x),
        stands(b, i + x.len(), y),
{
    let n = x.len() as int;
    assert((x + y).take(n) =~= x);
    assert((x + y).skip(n) =~= y);
    assert(b.subrange(i, i + n) =~= b.subrange(i, i + (x + y).len()).take(n));
    assert(b.subrange(i + n, i + n + y.len()) =~= b.subrange(i, i + (x + y).len()).skip(n));
}

/// The bytes of what stands somewhere.
proof fn lemma_byte(b: Seq<u8>, i: int, x: Seq<u8>, k: int)
    requires
        stands(b, i, x),
        0 <= k < x.len(),
    ensures
        b[i + k] == x[k],
{
    assert(b.subrange(i, i + x.len())[k] == b[i + k]);
}

/// What reading the source from `i` on comes to.
pub open spec fn read_from(b: Seq<u8>, p: Seq<char>, s: DeclarationState, i: int) -> DeclarationState {
    config_keys::read_tokens(b, p, s, lexer::tokens(b, i))
}

/// Reading on is reading one token, and then the others.
proof fn lemma_step(b: Seq<u8>, p: Seq<char>, s: DeclarationState, i: int)
    requires
        0 <= i < b.len(),
    ensures
        read_from(b, p, s, i) == read_from(
            b,
            p,
            config_keys::read_token(b, p, s, lexer::token_at(b, i)),
            lexer::token_at(b, i).end,
        ),
{
    let t = lexer::token_at(b, i);
    lexer::lemma_token_at(b, i);
    let ts = lexer::tokens(b, i);
    assert(ts == seq![t] + lexer::tokens(b, t.end));
    assert(ts[0] == t);
    assert(ts.drop_first() =~= lexer::tokens(b, t.end));
}

/// Where arrays are closed by brackets and parentheses only, and what is pending lies below the path.
pub open spec fn is_sound(s: DeclarationState) -> bool {
    &&& s.frames.len() > 0 ==> s.frames.last().close == 0x5d || s.frames.last().close == 0x29
    &&& config_laws::pending_extends_path(s)
}

/// The path that an array that starts now would have.
pub open spec fn path_of_value(s: DeclarationState) -> Seq<Seq<char>> {
    match s.pending {
        Some(path) => path,
        None => s.path,
    }
}

/// Whether `u` is `s` after a value with the given keys has been read.
pub open spec fn is_behind_value(
    u: DeclarationState,
    s: DeclarationState,
    keys: Seq<KeySpan>,
) -> bool {
    &&& u.path == s.path
    &&& u.frames == s.frames
    &&& u.pending is None
    &&& u.found == s.found + keys
}

/// A string between single quotes is one token.
proof fn lemma_quoted(b: Seq<u8>, i: int, t: Seq<u8>)
    requires
        stands(b, i, seq![0x27u8] + t + seq![0x27u8]),
        is_plain_text(t),
    ensures
        lexer::token_at(b, i).kind == TokenKind::Literal,
        lexer::token_at(b, i).start == i,
        lexer::token_at(b, i).end == i + t.len() + 2,
        b.subrange(i + 1, i + 1 + t.len()) == t,
{
    let n = t.len() as int;
    lemma_parts(b, i, seq![0x27u8] + t, seq![0x27u8]);
    lemma_parts(b, i, seq![0x27u8], t);
    lemma_byte(b, i, seq![0x27u8], 0);
    lemma_byte(b, i + 1 + n, seq![0x27u8], 0);
    assert forall|k: int| i + 1 <= k < i + 1 + n implies #[trigger] b[k] != 0x27 && b[k]
        != 0x5c by {
        lemma_byte(b, i + 1, t, k - i - 1);
        assert(t[k - i - 1] != 0x27);
    }
    lemma_closing_quote_at(b, i + 1, i + 1 + n);
}

/// The closing quote is the first one where no backslash stands before it.
proof fn lemma_closing_quote_at(b: Seq<u8>, i: int, e: int)
    requires
        0 <= i <= e < b.len(),
        b[e] == 0x27,
        forall|k: int| i <= k < e ==> #[trigger] b[k] != 0x27 && b[k] != 0x5c,
    ensures
        lexer::closing_quote(b, 0x27, i) == e,
    decreases e - i,
{
    if i < e {
        assert(b[i] != 0x27 && b[i] != 0x5c);
        lemma_closing_quote_at(b, i + 1, e);
    }
}

/// Digits end what is pending and change nothing else.
proof fn lemma_digits(b: Seq<u8>, p: Seq<char>, s: DeclarationState, i: int, e: int) -> (u:
    DeclarationState)
    requires
        0 <= i < e <= b.len(),
        forall|k: int| i <= k < e ==> 0x30 <= #[trigger] b[k] <= 0x39,
        is_sound(s),
    ensures
        read_from(b, p, s, i) == read_from(b, p, u, e),
        is_behind_value(u, s, Seq::empty()),
    decreases e - i,
{
    assert(0x30 <= b[i] <= 0x39);
    lemma_step(b, p, s, i);
    let t = lexer::token_at(b, i);
    let next = config_keys::read_token(b, p, s, t);
    if config_keys::paren_of_array_word(b, i) is Some {
        config_laws::lemma_array_word_letter(b, i);
    }
    assert(next == (DeclarationState { pending: None, ..s }));
    assert(s.found + Seq::<KeySpan>::empty() =~= s.found);
    if i + 1 < e {
        lemma_digits(b, p, next, i + 1, e)
    } else {
        next
    }
}

/// The word `array` keeps everything, and makes its parenthesis known.
proof fn lemma_array_word(b: Seq<u8>, p: Seq<char>, s: DeclarationState, i: int, k: int) -> (u:
    DeclarationState)
    requires
        stands(b, i, long_opening()),
        i > 0 ==> b[i - 1] == 0x20,
        0 <= k < 5,
        is_sound(s),
    ensures
        read_from(b, p, s, i + k) == read_from(b, p, u, i + 5),
        u.path == s.path,
        u.frames == s.frames,
        u.pending == s.pending,
        u.found == s.found,
        u.array_paren == Some(i + 5),
    decreases 5 - k,
{
    let word = "array"@;
    reveal_strlit("array");
    is_ascii_chars_encode_utf8(word);
    assert forall|j: int| 0 <= j < 6 implies b[i + j] == #[trigger] long_opening()[j] by {
        lemma_byte(b, i, long_opening(), j);
    }
    assert(b[i] == 0x61 && b[i + 1] == 0x72 && b[i + 2] == 0x72 && b[i + 3] == 0x61 && b[i + 4]
        == 0x79 && b[i + 5] == 0x28) by {
        assert(b[i + 0] == long_opening()[0]);
        assert(b[i + 1] == long_opening()[1]);
        assert(b[i + 2] == long_opening()[2]);
        assert(b[i + 3] == long_opening()[3]);
        assert(b[i + 4] == long_opening()[4]);
        assert(b[i + 5] == long_opening()[5]);
    }
    assert(b.subrange(i, i + 5) =~= encode_utf8(word)) by {
        let e = encode_utf8(word);
        assert(word[0] as u8 == e[0] && word[1] as u8 == e[1] && word[2] as u8 == e[2]
            && word[3] as u8 == e[3] && word[4] as u8 == e[4]);
    }
    assert forall|j: int| i <= j < i + k implies usage_laws::is_word_byte(#[trigger] b[j]) by {
        assert(b[j] == long_opening()[j - i]) by {
            assert(b[i + (j - i)] == long_opening()[j - i]);
        }
    }
    usage_laws::lemma_word_is(b, i, i + k);
    assert(config_keys::skip_trivia(b, i + 5) == i + 5);
    assert(config_keys::paren_of_array_word(b, i + k) == Some(i + 5));
    assert(b[i + k] == long_opening()[k]);
    lemma_step(b, p, s, i + k);
    let next = config_keys::read_token(b, p, s, lexer::token_at(b, i + k));
    assert(next == (DeclarationState { array_paren: Some(i + 5), ..s }));
    if k < 4 {
        lemma_array_word(b, p, next, i, k + 1)
    } else {
        next
    }
}

/// Leaving an array gives back the path and the arrays around it.
proof fn lemma_leave(s: DeclarationState, u: DeclarationState, close: u8)
    requires
        is_sound(s),
        s.path.len() <= usize::MAX,
        u.path == path_of_value(s),
        u.frames == config_keys::enter_array(s, close).frames,
    ensures
        config_keys::leave_array(u).path == s.path,
        config_keys::leave_array(u).frames == s.frames,
        config_keys::leave_array(u).pending == u.pending,
        config_keys::leave_array(u).found == u.found,
{
    assert(u.frames.drop_last() =~= s.frames);
    if let Some(q) = s.pending {
        assert(s.path =~= q.take(s.path.len() as int));
        if s.path.len() == q.len() {
            assert(q =~= s.path);
        }
    }
}

/// Wherever a value is written behind a blank and before a comma or a semicolon, reading it finds
/// exactly its keys, at every depth, below the key that it is the value of, and leaves the path and
/// the arrays around it as they were.
pub proof fn law_written_value_declares_its_keys(
    b: Seq<u8>,
    p: Seq<char>,
    s: DeclarationState,
    i: int,
    v: ConfigValue,
) -> (u: DeclarationState)
    requires
        is_writable(v),
        stands(b, i, written(v)),
        i > 0 && b[i - 1] == 0x20,
        i + written(v).len() < b.len(),
        b[i + written(v).len()] == 0x2c || b[i + written(v).len()] == 0x3b,
        b.len() <= usize::MAX,
        is_sound(s),
        s.path.len() <= i,
        path_of_value(s).len() <= i,
    ensures
        read_from(b, p, s, i) == read_from(b, p, u, i + written(v).len()),
        is_behind_value(u, s, keys_in(v, p, path_of_value(s), i)),
    decreases v,
{
    let w = written(v);
    let e = i + w.len();
    match v {
        ConfigValue::Number(d) => {
            assert forall|k: int| i <= k < e implies 0x30 <= #[trigger] b[k] <= 0x39 by {
                lemma_byte(b, i, d, k - i);
                assert(0x30 <= d[k - i] <= 0x39);
            }
            lemma_digits(b, p, s, i, e)
        },
        ConfigValue::Text(t) => {
            lemma_quoted(b, i, t);
            lemma_step(b, p, s, i);
            assert(config_keys::skip_trivia(b, e) == e);
            let next = config_keys::read_token(b, p, s, lexer::token_at(b, i));
            assert(s.found + Seq::<KeySpan>::empty() =~= s.found);
            next
        },
        ConfigValue::Short(es) => {
            let inside = all_written(es);
            lemma_parts(b, i, seq![0x5bu8] + inside, seq![0x5du8]);
            lemma_parts(b, i, seq![0x5bu8], inside);
            lemma_byte(b, i, seq![0x5bu8], 0);
            lemma_byte(b, i + 1 + inside.len(), seq![0x5du8], 0);
            lemma_step(b, p, s, i);
            let entered = config_keys::read_token(b, p, s, lexer::token_at(b, i));
            assert(entered == config_keys::enter_array(s, 0x5d));
            let u = lemma_entries(b, p, entered, i + 1, es);
            lemma_step(b, p, u, i + 1 + inside.len());
            lemma_leave(s, u, 0x5d);
            config_keys::read_token(b, p, u, lexer::token_at(b, i + 1 + inside.len()))
        },
        ConfigValue::Long(es) => {
            let inside = all_written(es);
            lemma_parts(b, i, long_opening() + inside, seq![0x29u8]);
            lemma_parts(b, i, long_opening(), inside);
            lemma_byte(b, i, long_opening(), 5);
            lemma_byte(b, i + 6 + inside.len(), seq![0x29u8], 0);
            let known = lemma_array_word(b, p, s, i, 0);
            lemma_step(b, p, known, i + 5);
            let entered = config_keys::read_token(b, p, known, lexer::token_at(b, i + 5));
            assert(entered == config_keys::enter_array(known, 0x29));
            let u = lemma_entries(b, p, entered, i + 6, es);
            lemma_step(b, p, u, i + 6 + inside.len());
            lemma_leave(known, u, 0x29);
            config_keys::read_token(b, p, u, lexer::token_at(b, i + 6 + inside.len()))
        },
    }
}

/// Reading the entries of an array finds exactly their keys.
proof fn lemma_entries(
    b: Seq<u8>,
    p: Seq<char>,
    s: DeclarationState,
    i: int,
    es: Seq<ConfigEntry>,
) -> (u: DeclarationState)
    requires
        are_writable(es),
        stands(b, i, all_written(es)),
        i + all_written(es).len() < b.len(),
        b.len() <= usize::MAX,
        is_sound(s),
        s.frames.len() > 0,
        s.pending is None,
        s.path.len() <= i,
    ensures
        read_from(b, p, s, i) == read_from(b, p, u, i + all_written(es).len()),
        is_behind_value(u, s, keys_of(es, p, s.path, i)),
    decreases es,
{
    if es.len() == 0 {
        assert(s.found + Seq::<KeySpan>::empty() =~= s.found);
        s
    } else {
        let key = es[0].key;
        let n = key.len() as int;
        let value = es[0].value;
        let w = written(value);
        let quoted = seq![0x27u8] + key + seq![0x27u8];
        let arrow = seq![0x20u8, 0x3d, 0x3e, 0x20];
        let rest = all_written(es.drop_first());
        let at = i + n + 6;
        assert(all_written(es) =~= quoted + (arrow + (w + (seq![0x2cu8] + rest))));
        lemma_parts(b, i, quoted, arrow + (w + (seq![0x2cu8] + rest)));
        lemma_parts(b, i + n + 2, arrow, w + (seq![0x2cu8] + rest));
        lemma_parts(b, at, w, seq![0x2cu8] + rest);
        lemma_parts(b, at + w.len(), seq![0x2cu8], rest);
        lemma_byte(b, at + w.len(), seq![0x2cu8], 0);
        lemma_byte(b, i + n + 2, arrow, 3);
        let keyed = lemma_key(b, p, s, i, key);
        let inner = s.path.push(decode_utf8(key));
        assert(inner.take(s.path.len() as int) =~= s.path);
        assert(is_sound(keyed));
        let behind = law_written_value_declares_its_keys(b, p, keyed, at, value);
        let comma = at + w.len();
        lemma_comma(b, p, behind, comma);
        let u = lemma_entries(b, p, behind, comma + 1, es.drop_first());
        assert(u.found =~= s.found + keys_of(es, p, s.path, i));
        assert(all_written(es).len() == n + 7 + w.len() + rest.len());
        u
    }
}

/// Reading a key and the arrow behind it finds the key, and makes it the key of what follows.
proof fn lemma_key(b: Seq<u8>, p: Seq<char>, s: DeclarationState, i: int, key: Seq<u8>) -> (u:
    DeclarationState)
    requires
        is_plain_text(key),
        stands(b, i, seq![0x27u8] + key + seq![0x27u8]),
        stands(b, i + key.len() + 2, seq![0x20u8, 0x3d, 0x3e, 0x20]),
        is_sound(s),
    ensures
        read_from(b, p, s, i) == read_from(b, p, u, i + key.len() + 6),
        ({
            let inner = s.path.push(decode_utf8(key));
            u == (DeclarationState {
                pending: Some(inner),
                found: s.found.push(
                    KeySpan {
                        key: config_keys::dotted(p, inner),
                        start: i + 1,
                        end: i + 1 + key.len(),
                    },
                ),
                ..s
            })
        }),
{
    let n = key.len() as int;
    let arrow = seq![0x20u8, 0x3d, 0x3e, 0x20];
    lemma_byte(b, i + n + 2, arrow, 0);
    lemma_byte(b, i + n + 2, arrow, 1);
    lemma_byte(b, i + n + 2, arrow, 2);
    lemma_byte(b, i + n + 2, arrow, 3);
    lemma_quoted(b, i, key);
    assert(config_keys::skip_trivia(b, i + n + 3) == i + n + 3);
    assert(config_keys::skip_trivia(b, i + n + 2) == i + n + 3);
    lemma_step(b, p, s, i);
    let u = config_keys::read_token(b, p, s, lexer::token_at(b, i));
    lemma_transparent(b, p, u, i + n + 2);
    lemma_transparent(b, p, u, i + n + 3);
    lemma_transparent(b, p, u, i + n + 4);
    lemma_transparent(b, p, u, i + n + 5);
    u
}

/// Blanks and the signs of an arrow change nothing while a key is pending.
proof fn lemma_transparent(b: Seq<u8>, p: Seq<char>, s: DeclarationState, i: int)
    requires
        0 <= i < b.len(),
        b[i] == 0x20 || b[i] == 0x3d || b[i] == 0x3e,
        s.pending is Some,
        s.frames.len() > 0 ==> s.frames.last().close == 0x5d || s.frames.last().close == 0x29,
    ensures
        read_from(b, p, s, i) == read_from(b, p, s, i + 1),
{
    lemma_step(b, p, s, i);
}

/// A comma changes nothing where no key is pending.
proof fn lemma_comma(b: Seq<u8>, p: Seq<char>, s: DeclarationState, i: int)
    requires
        0 <= i < b.len(),
        b[i] == 0x2c,
        s.pending is None,
        s.frames.len() > 0 ==> s.frames.last().close == 0x5d || s.frames.last().close == 0x29,
    ensures
        read_from(b, p, s, i) == read_from(b, p, s, i + 1),
{
    if config_keys::paren_of_array_word(b, i) is Some {
        config_laws::lemma_array_word_letter(b, i);
    }
    lemma_step(b, p, s, i);
}

/// Whether bytes hold no quotes, no comments, and nothing that opens an array.
pub open spec fn is_quiet(x: Seq<u8>) -> bool {
    forall|k: int|
        0 <= k < x.len() ==> {
            let c = #[trigger] x[k];
            c != 0x27 && c != 0x22 && c != 0x23 && c != 0x2f && c != 0x5b && c != 0x28
        }
}

/// Outside of all arrays, such bytes find nothing.
proof fn lemma_quiet(b: Seq<u8>, p: Seq<char>, s: DeclarationState, i: int, x: Seq<u8>) -> (u:
    DeclarationState)
    requires
        stands(b, i, x),
        is_quiet(x),
        s.pending is None,
        s.frames.len() == 0,
    ensures
        read_from(b, p, s, i) == read_from(b, p, u, i + x.len()),
        u.path == s.path,
        u.frames == s.frames,
        u.pending is None,
        u.found == s.found,
    decreases x.len(),
{
    if x.len() == 0 {
        s
    } else {
        lemma_byte(b, i, x, 0);
        assert(x[0] != 0x27);
        let rest = x.drop_first();
        assert(x =~= seq![x[0]] + rest);
        lemma_parts(b, i, seq![x[0]], rest);
        lemma_step(b, p, s, i);
        let next = config_keys::read_token(b, p, s, lexer::token_at(b, i));
        assert forall|k: int| 0 <= k < rest.len() implies ({
            let c = #[trigger] rest[k];
            c != 0x27 && c != 0x22 && c != 0x23 && c != 0x2f && c != 0x5b && c != 0x28
        }) by {
            assert(rest[k] == x[k + 1]);
        }
        lemma_quiet(b, p, next, i + 1, rest)
    }
}

/// A configuration file that returns a value declares exactly the keys of that value, at every depth
/// and in the order in which they are written, whether its arrays are short or long.
pub proof fn law_written_file_declares_its_keys(
    head: Seq<u8>,
    v: ConfigValue,
    tail: Seq<u8>,
    prefix: Seq<char>,
)
    requires
        is_writable(v),
        is_quiet(head),
        head.len() > 0 && head.last() == 0x20,
        is_quiet(tail),
        tail.len() > 0 && tail[0] == 0x3b,
        (head + written(v) + tail).len() <= usize::MAX,
    ensures
        config_keys::declarations(head + written(v) + tail, prefix) == keys_in(
            v,
            prefix,
            Seq::empty(),
            head.len() as int,
        ),
{
    let b = head + written(v) + tail;
    let s = config_keys::start_state();
    let n = head.len() as int;
    let e = n + written(v).len();
    assert(b.subrange(0, n) =~= head);
    assert(b.subrange(n, e) =~= written(v));
    assert(b.subrange(e, e + tail.len()) =~= tail);
    let t = lemma_quiet(b, prefix, s, 0, head);
    assert(b[n - 1] == head.last());
    assert(b[e] == tail[0]);
    let u = law_written_value_declares_its_keys(b, prefix, t, n, v);
    let w = lemma_quiet(b, prefix, u, e, tail);
    assert(lexer::tokens(b, b.len() as int) =~= Seq::empty());
    assert(w.found =~= keys_in(v, prefix, Seq::empty(), n));
}

/// A byte that is neither blank, a bracket, a parenthesis, part of an arrow, a comma, a quote, the
/// start of a comment nor in a word `array` before its parenthesis begins a value that is no array:
/// nothing stays pending.
pub proof fn law_other_values_are_no_parents(
    b: Seq<u8>,
    p: Seq<char>,
    s: DeclarationState,
    i: int,
)
    requires
        0 <= i < b.len(),
        !usage_laws::is_blank(b[i]),
        b[i] != 0x5b && b[i] != 0x5d && b[i] != 0x28 && b[i] != 0x29,
        b[i] != 0x3d && b[i] != 0x3e && b[i] != 0x2c,
        b[i] != 0x27 && b[i] != 0x22 && b[i] != 0x23,
        !lexer_laws::pair_at(b, i, 0x2f, 0x2f) && !lexer_laws::pair_at(b, i, 0x2f, 0x2a),
        forall|start: int, paren: int|
            !#[trigger] usage_laws::array_word_leads_to(b, i, start, paren),
        is_sound(s),
    ensures
        ({
            let u = config_keys::read_token(b, p, s, lexer::token_at(b, i));
            u.pending is None && u.path == s.path && u.frames == s.frames && u.found == s.found
        }),
{
    lexer_laws::law_other_bytes_stand_alone(b, i);
    if let Some(paren) = config_keys::paren_of_array_word(b, i) {
        usage_laws::law_array_words_lead_to_parenthesis(b, i, paren);
    }
}

/// A comment changes nothing, wherever it stands.
pub proof fn law_comments_change_nothing(b: Seq<u8>, p: Seq<char>, s: DeclarationState, i: int)
    requires
        0 <= i < b.len(),
        lexer::token_at(b, i).kind == TokenKind::Comment,
    ensures
        config_keys::read_token(b, p, s, lexer::token_at(b, i)) == s,
{
}

/// A string declares a key exactly if an arrow stands behind it, blanks and comments aside.
pub proof fn law_strings_before_arrows_are_keys(
    b: Seq<u8>,
    p: Seq<char>,
    s: DeclarationState,
    i: int,
)
    requires
        0 <= i < b.len(),
        lexer::token_at(b, i).kind == TokenKind::Literal,
    ensures
        ({
            let t = lexer::token_at(b, i);
            let u = config_keys::read_token(b, p, s, t);
            let after = config_keys::skip_trivia(b, t.end);
            let part = decode_utf8(b.subrange(i + 1, t.end - 1));
            if after + 1 < b.len() && b[after] == 0x3d && b[after + 1] == 0x3e {
                &&& u.found == s.found.push(
                    KeySpan {
                        key: config_keys::dotted(p, s.path.push(part)),
                        start: i + 1,
                        end: t.end - 1,
                    },
                )
                &&& u.pending == Some(s.path.push(part))
                &&& u.path == s.path
                &&& u.frames == s.frames
            } else {
                u.found == s.found && u.pending is None && u.path == s.path && u.frames
                    == s.frames
            }
        }),
{
    let t = lexer::token_at(b, i);
    lexer::lemma_token_at(b, i);
    lemma_skip_forward(b, t.end);
}

/// Skipping goes forward.
proof fn lemma_skip_forward(b: Seq<u8>, i: int)
    requires
        0 <= i <= b.len(),
    ensures
        i <= config_keys::skip_trivia(b, i) <= b.len(),
    decreases b.len() - i,
{
    if i < b.len() {
        if text::is_space(b[i]) {
            lemma_skip_forward(b, i + 1);
        } else if let Some(j) = lexer::opens_line_comment(b, i) {
            lexer::lemma_line_end(b, j);
            lemma_skip_forward(b, lexer::line_end(b, j));
        } else if lexer::opens_block_comment(b, i) {
            config_keys::lemma_block_stop(b, i + 2);
            lemma_skip_forward(b, config_keys::block_stop(b, i + 2));
        }
    }
}

/// Whether `u` is `s` with an array entered that `close` ends: below what was pending, if anything was,
/// and with nothing pending.
pub open spec fn has_entered(u: DeclarationState, s: DeclarationState, close: u8) -> bool {
    &&& u.path == path_of_value(s)
    &&& u.pending is None
    &&& u.found == s.found
    &&& u.frames.len() == s.frames.len() + 1
    &&& u.frames.drop_last() == s.frames
    &&& u.frames.last().close == close
    &&& u.frames.last().prev_path_len == s.path.len()
}

/// Whether `u` is `s` but for what is pending: nothing is.
pub open spec fn has_dropped_pending(u: DeclarationState, s: DeclarationState) -> bool {
    u.pending is None && u.path == s.path && u.frames == s.frames && u.found == s.found
}

/// A bracket opens an array. A parenthesis does so exactly where the word `array` stands before it,
/// blanks and comments aside; any other belongs to a value that is no array.
pub proof fn law_arrays_are_entered(b: Seq<u8>, p: Seq<char>, s: DeclarationState, i: int)
    requires
        0 <= i < b.len(),
        is_sound(s),
        s.path.len() <= usize::MAX,
    ensures
        ({
            let u = config_keys::read_token(b, p, s, lexer::token_at(b, i));
            &&& b[i] == 0x5b ==> has_entered(u, s, 0x5d)
            &&& b[i] == 0x28 && (usage_laws::array_stands_before(b, i) || s.array_paren == Some(i))
                ==> has_entered(u, s, 0x29)
            &&& b[i] == 0x28 && !usage_laws::array_stands_before(b, i) && s.array_paren != Some(i)
                ==> has_dropped_pending(u, s)
        }),
{
    usage_laws::law_long_arrays_are_seen(b, i);
    if b[i] == 0x5b || b[i] == 0x28 {
        lexer_laws::law_other_bytes_stand_alone(b, i);
        if config_keys::paren_of_array_word(b, i) is Some {
            config_laws::lemma_array_word_letter(b, i);
        }
        let u = config_keys::read_token(b, p, s, lexer::token_at(b, i));
        if u.frames.len() == s.frames.len() + 1 {
            assert(u.frames.drop_last() =~= s.frames);
        }
    }
}

/// The innermost array is left at the byte that closes it, and the path is as long again as it was
/// outside. Another closing byte belongs to a value that is no array.
pub proof fn law_arrays_are_left(b: Seq<u8>, p: Seq<char>, s: DeclarationState, i: int)
    requires
        0 <= i < b.len(),
        b[i] == 0x5d || b[i] == 0x29,
        is_sound(s),
    ensures
        ({
            let u = config_keys::read_token(b, p, s, lexer::token_at(b, i));
            if s.frames.len() > 0 && s.frames.last().close == b[i] {
                let n = s.frames.last().prev_path_len as int;
                &&& u.path == (if n < s.path.len() {
                    s.path.take(n)
                } else {
                    s.path
                })
                &&& u.frames == s.frames.drop_last()
                &&& u.pending == s.pending
                &&& u.found == s.found
            } else {
                has_dropped_pending(u, s)
            }
        }),
{
    lexer_laws::law_other_bytes_stand_alone(b, i);
    if config_keys::paren_of_array_word(b, i) is Some {
        config_laws::lemma_array_word_letter(b, i);
    }
}

/// Blanks, arrows and commas leave everything as it is.
pub proof fn law_blanks_arrows_and_commas_change_nothing(
    b: Seq<u8>,
    p: Seq<char>,
    s: DeclarationState,
    i: int,
)
    requires
        0 <= i < b.len(),
        usage_laws::is_blank(b[i]) || b[i] == 0x3d || b[i] == 0x3e || b[i] == 0x2c,
        is_sound(s),
    ensures
        ({
            let u = config_keys::read_token(b, p, s, lexer::token_at(b, i));
            u.pending == s.pending && u.path == s.path && u.frames == s.frames && u.found == s.found
        }),
{
    lexer_laws::law_other_bytes_stand_alone(b, i);
    if config_keys::paren_of_array_word(b, i) is Some {
        config_laws::lemma_array_word_letter(b, i);
    }
}

/// A file is read token by token from its start, with no path, no array around and nothing found yet.
pub proof fn law_files_are_read_token_by_token(b: Seq<u8>, p: Seq<char>, i: int, s: DeclarationState)
    requires
        0 <= i < b.len(),
    ensures
        read_from(b, p, s, i) == read_from(
            b,
            p,
            config_keys::read_token(b, p, s, lexer::token_at(b, i)),
            lexer::token_at(b, i).end,
        ),
        read_from(b, p, s, b.len() as int) == s,
        exists|start: DeclarationState|
            config_keys::declarations(b, p) == (#[trigger] read_from(b, p, start, 0)).found
                && start.path.len() == 0 && start.frames.len() == 0 && start.pending is None
                && start.found.len() == 0 && start.array_paren is None,
{
    let t = lexer::token_at(b, i);
    lexer::lemma_token_at(b, i);
    assert(lexer::tokens(b, i) == seq![t] + lexer::tokens(b, t.end));
    assert((seq![t] + lexer::tokens(b, t.end)).drop_first() =~= lexer::tokens(b, t.end));
    assert(lexer::tokens(b, b.len() as int) =~= Seq::empty());
    let start = config_keys::start_state();
    assert(config_keys::declarations(b, p) == read_from(b, p, start, 0).found);
}

} // verus!
