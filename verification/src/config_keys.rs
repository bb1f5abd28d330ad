//! Laravel configuration keys: `config('app.name')` and the arrays of `config/*.php`.
use vstd::prelude::*;
use vstd::string::*;
use vstd::utf8::*;

use crate::lexer;
use crate::lexer::TokenKind;
use crate::text;
use crate::urls;

verus! {

/// A configuration key and the bytes of the source that spell it, without the quotes.
#[derive(Debug, Clone, PartialEq, Eq)]
pub struct ConfigKeyMatch {
    pub key: String,
    pub start: usize,
    pub end: usize,
}

/// A key with its span as mathematical values.
pub struct KeySpan {
    pub key: Seq<char>,
    pub start: int,
    pub end: int,
}

impl View for ConfigKeyMatch {
    type V = KeySpan;

    open spec fn view(&self) -> KeySpan {
        KeySpan { key: self.key@, start: self.start as int, end: self.end as int }
    }
}

/// The views of a list of matches.
pub open spec fn spans(v: Seq<ConfigKeyMatch>) -> Seq<KeySpan> {
    v.map_values(|m: ConfigKeyMatch| m@)
}

/// Letters, digits, `_`, `\` and `:`.
pub open spec fn is_callee_char(b: u8) -> bool {
    text::is_alphanumeric(b) || b == 0x5f || b == 0x5c || b == 0x3a
}

/// Where the run of white space that ends before `i` starts.
pub open spec fn spaces_before(b: Seq<u8>, i: int) -> int
    decreases i,
{
    if 0 < i <= b.len() && text::is_space(b[i - 1]) {
        spaces_before(b, i - 1)
    } else {
        i
    }
}

/// Where the run of callee characters that ends before `i` starts.
pub open spec fn callee_before(b: Seq<u8>, i: int) -> int
    decreases i,
{
    if 0 < i <= b.len() && is_callee_char(b[i - 1]) {
        callee_before(b, i - 1)
    } else {
        i
    }
}

/// Where the run of letters, digits and `_` that ends before `i` starts.
pub open spec fn word_before(b: Seq<u8>, i: int) -> int
    decreases i,
{
    if 0 < i <= b.len() && (text::is_alphanumeric(b[i - 1]) || b[i - 1] == 0x5f) {
        word_before(b, i - 1)
    } else {
        i
    }
}

/// The callees that read a configuration value, in any case.
pub open spec fn is_config_callee(callee: Seq<u8>) -> bool {
    ||| text::same_ignoring_case(callee, "config".spec_bytes())
    ||| text::same_ignoring_case(callee, "\\config".spec_bytes())
    ||| text::same_ignoring_case(callee, "config::get".spec_bytes())
    ||| text::same_ignoring_case(callee, "\\config::get".spec_bytes())
}

/// Whether what stands before `quote` opens the arguments of `config(` or `Config::get(`, white
/// space around the parenthesis aside.
pub open spec fn is_config_call(b: Seq<u8>, quote: int) -> bool {
    let open = spaces_before(b, quote);
    &&& 0 < open
    &&& b[open - 1] == 0x28
    &&& {
        let end = spaces_before(b, open - 1);
        let start = callee_before(b, end);
        start < end && is_config_callee(b.subrange(start, end))
    }
}

/// The text between the quotes of a literal, with its span.
pub open spec fn literal_span(b: Seq<u8>, t: lexer::Lexeme) -> KeySpan {
    KeySpan { key: text::between(b, t.start + 1, t.end - 1), start: t.start + 1, end: t.end - 1 }
}

/// Whether a token is the first argument of a configuration call and names a key: a string that is
/// neither empty nor interpolated.
pub open spec fn is_usage(b: Seq<u8>, t: lexer::Lexeme) -> bool {
    &&& t.kind == TokenKind::Literal
    &&& is_config_call(b, t.start)
    &&& literal_span(b, t).key.len() > 0
    &&& !literal_span(b, t).key.contains('$')
}

/// The configuration keys that the tokens `ts` use.
pub open spec fn usages_in(b: Seq<u8>, ts: Seq<lexer::Lexeme>) -> Seq<KeySpan> {
    ts.filter(|t: lexer::Lexeme| is_usage(b, t)).map_values(
        |t: lexer::Lexeme| literal_span(b, t),
    )
}

/// The configuration keys that a source uses, in the order of the source.
pub open spec fn usages(b: Seq<u8>) -> Seq<KeySpan> {
    usages_in(b, lexer::tokens(b, 0))
}

/// The matches with the key `target`, or all of them when there is none.
pub open spec fn with_key(ms: Seq<KeySpan>, target: Option<Seq<char>>) -> Seq<KeySpan> {
    match target {
        Some(key) => ms.filter(|m: KeySpan| m.key == key),
        None => ms,
    }
}

/// The first token's part in the usages.
pub proof fn lemma_usages_first(b: Seq<u8>, t: lexer::Lexeme, rest: Seq<lexer::Lexeme>)
    ensures
        usages_in(b, seq![t] + rest) == (if is_usage(b, t) {
            seq![literal_span(b, t)]
        } else {
            Seq::<KeySpan>::empty()
        }) + usages_in(b, rest),
{
    text::lemma_filter_first(t, rest, |t: lexer::Lexeme| is_usage(b, t));
    assert(usages_in(b, seq![t] + rest) =~= (if is_usage(b, t) {
        seq![literal_span(b, t)]
    } else {
        Seq::<KeySpan>::empty()
    }) + usages_in(b, rest));
}

/// The first token's part in the usages with the key `target`.
proof fn lemma_wanted_first(
    b: Seq<u8>,
    t: lexer::Lexeme,
    rest: Seq<lexer::Lexeme>,
    target: Option<Seq<char>>,
)
    ensures
        with_key(usages_in(b, seq![t] + rest), target) == (if is_usage(b, t) && (
        target matches Some(key) ==> literal_span(b, t).key == key) {
            seq![literal_span(b, t)]
        } else {
            Seq::<KeySpan>::empty()
        }) + with_key(usages_in(b, rest), target),
{
    lemma_usages_first(b, t, rest);
    let others = usages_in(b, rest);
    if let Some(key) = target {
        if is_usage(b, t) {
            text::lemma_filter_first(literal_span(b, t), others, |m: KeySpan| m.key == key);
        } else {
            assert(Seq::<KeySpan>::empty() + others =~= others);
        }
    }
    assert(with_key(usages_in(b, seq![t] + rest), target) =~= (if is_usage(b, t) && (
    target matches Some(key) ==> literal_span(b, t).key == key) {
        seq![literal_span(b, t)]
    } else {
        Seq::<KeySpan>::empty()
    }) + with_key(others, target));
}

/// A literal is framed by quotes, so its text lies between character boundaries.
pub proof fn lemma_literal_boundaries(s: Seq<char>, i: int)
    requires
        0 <= i < encode_utf8(s).len(),
        lexer::token_at(encode_utf8(s), i).kind == TokenKind::Literal,
    ensures
        ({
            let b = encode_utf8(s);
            let t = lexer::token_at(b, i);
            &&& t.start + 2 <= t.end <= b.len()
            &&& is_char_boundary(b, t.start + 1)
            &&& is_char_boundary(b, t.end - 1)
        }),
{
    let b = encode_utf8(s);
    lexer::lemma_token_at(b, i);
    let t = lexer::token_at(b, i);
    text::lemma_str_bytes(s);
    text::lemma_ascii_boundaries(b, i);
    text::lemma_ascii_boundaries(b, t.end - 1);
}

/// Whether `b` may occur in the callee of a call.
pub fn is_php_callee_char(b: u8) -> (r: bool)
    ensures
        r == is_callee_char(b),
{
    text::byte_is_alphanumeric(b) || b == 0x5f || b == 0x5c || b == 0x3a
}

/// Where the run of white space that ends before `from` starts.
fn skip_spaces_before(b: &[u8], from: usize) -> (r: usize)
    requires
        from <= b@.len(),
    ensures
        r == spaces_before(b@, from as int),
        r <= from,
{
    let mut i: usize = from;
    while i > 0 && text::byte_is_space(b[i - 1])
        invariant
            i <= from <= b@.len(),
            spaces_before(b@, i as int) == spaces_before(b@, from as int),
        decreases i,
    {
        i -= 1;
    }
    i
}

/// Whether the string literal that opens at `quote_start` is the first argument of a call of
/// `config` or `Config::get`, with or without a leading backslash and in any case.
pub fn is_laravel_config_call_prefix(content: &str, quote_start: usize) -> (r: bool)
    requires
        quote_start <= content.spec_bytes().len(),
    ensures
        r == is_config_call(content.spec_bytes(), quote_start as int),
{
    let b = content.as_bytes();
    let open = skip_spaces_before(b, quote_start);
    if open == 0 || b[open - 1] != 0x28 {
        return false;
    }
    let end = skip_spaces_before(b, open - 1);
    let mut start: usize = end;
    while start > 0 && is_php_callee_char(b[start - 1])
        invariant
            start <= end <= b@.len(),
            callee_before(b@, start as int) == callee_before(b@, end as int),
        decreases start,
    {
        start -= 1;
    }
    if start == end {
        return false;
    }
    text::bytes_match_ignoring_case(b, start, end, "config".as_bytes())
        || text::bytes_match_ignoring_case(b, start, end, "\\config".as_bytes())
        || text::bytes_match_ignoring_case(b, start, end, "config::get".as_bytes())
        || text::bytes_match_ignoring_case(b, start, end, "\\config::get".as_bytes())
}

/// The configuration keys that `content` uses, in the order of the source.
///
/// With a `target_key`, only the usages with exactly that key.
pub fn scan_laravel_config_usages(content: &str, target_key: Option<&str>) -> (r: Vec<
    ConfigKeyMatch,
>)
    ensures
        spans(r@) == with_key(
            usages(content.spec_bytes()),
            match target_key {
                Some(key) => Some(key@),
                None => None,
            },
        ),
{
    let b = content.as_bytes();
    let ghost target: Option<Seq<char>> = match target_key {
        Some(key) => Some(key@),
        None => None,
    };
    let mut out: Vec<ConfigKeyMatch> = Vec::new();
    let mut i: usize = 0;
    assert(spans(out@) + with_key(usages_in(b@, lexer::tokens(b@, 0)), target) =~= with_key(
        usages(b@),
        target,
    ));
    while i < b.len()
        invariant
            b@ == content.spec_bytes(),
            i <= b@.len(),
            target == (match target_key {
                Some(key) => Some(key@),
                None => None,
            }),
            spans(out@) + with_key(usages_in(b@, lexer::tokens(b@, i as int)), target) == with_key(
                usages(b@),
                target,
            ),
        decreases b@.len() - i,
    {
        let t = lexer::next_token(b, i);
        let ghost before = out@;
        let ghost rest = lexer::tokens(b@, t.end as int);
        proof {
            assert(lexer::tokens(b@, i as int) == seq![t@] + rest);
            lemma_wanted_first(b@, t@, rest, target);
        }
        if t.kind == TokenKind::Literal && is_laravel_config_call_prefix(content, i) {
            proof {
                lemma_literal_boundaries(content@, i as int);
            }
            let value = text::slice(content, t.start + 1, t.end - 1);
            let wanted = match target_key {
                Some(key) => text::str_eq(key, value),
                None => true,
            };
            if !value.is_empty() && !text::contains_char(value, '$') && wanted {
                out.push(
                    ConfigKeyMatch { key: value.to_owned(), start: t.start + 1, end: t.end - 1 },
                );
                assert(spans(out@) =~= spans(before).push(literal_span(b@, t@)));
            }
        }
        assert(spans(out@) + with_key(usages_in(b@, rest), target) =~= spans(before) + with_key(
            usages_in(b@, lexer::tokens(b@, i as int)),
            target,
        ));
        i = t.end;
    }
    proof {
        reveal(Seq::filter);
        assert(lexer::tokens(b@, i as int) =~= Seq::empty());
        assert(usages_in(b@, lexer::tokens(b@, i as int)) =~= Seq::empty());
        assert(spans(out@) =~= with_key(usages(b@), target));
    }
    out
}

/// Whether an offset lies in the span of `m` or just behind it.
pub open spec fn covers(m: KeySpan, offset: int) -> bool {
    m.start <= offset <= m.end
}

/// The first match whose span an offset touches.
pub open spec fn first_covering(ms: Seq<KeySpan>, offset: int) -> Option<KeySpan>
    decreases ms.len(),
{
    if ms.len() == 0 {
        None
    } else if covers(ms[0], offset) {
        Some(ms[0])
    } else {
        first_covering(ms.drop_first(), offset)
    }
}

/// The first match whose span an offset touches.
fn take_first_covering(ms: Vec<ConfigKeyMatch>, offset: usize) -> (r: Option<ConfigKeyMatch>)
    ensures
        match r {
            Some(m) => first_covering(spans(ms@), offset as int) == Some(m@),
            None => first_covering(spans(ms@), offset as int) is None,
        },
{
    let mut k: usize = 0;
    assert(spans(ms@).skip(0) =~= spans(ms@));
    while k < ms.len()
        invariant
            k <= ms@.len(),
            first_covering(spans(ms@).skip(k as int), offset as int) == first_covering(
                spans(ms@),
                offset as int,
            ),
        decreases ms@.len() - k,
    {
        assert(spans(ms@).skip(k as int)[0] == ms@[k as int]@);
        if ms[k].start <= offset && offset <= ms[k].end {
            return Some(
                ConfigKeyMatch { key: ms[k].key.clone(), start: ms[k].start, end: ms[k].end },
            );
        }
        assert(spans(ms@).skip(k as int).drop_first() =~= spans(ms@).skip(k + 1));
        k += 1;
    }
    None
}

/// The configuration key under the cursor in `config('x.y')` or `Config::get('x.y')`.
pub fn find_laravel_config_usage_at_cursor(content: &str, cursor_offset: usize) -> (r: Option<
    ConfigKeyMatch,
>)
    ensures
        match r {
            Some(m) => first_covering(usages(content.spec_bytes()), cursor_offset as int) == Some(
                m@,
            ),
            None => first_covering(usages(content.spec_bytes()), cursor_offset as int) is None,
        },
{
    take_first_covering(scan_laravel_config_usages(content, None), cursor_offset)
}

/// Where the search for the `*/` of a block comment stops: behind it, or where fewer than two bytes
/// are left.
pub open spec fn block_stop(b: Seq<u8>, i: int) -> int
    decreases b.len() - i,
{
    if i + 1 >= b.len() {
        i
    } else if lexer::closes_block(b, i) {
        i + 2
    } else {
        block_stop(b, i + 1)
    }
}

/// The search stops within the source.
pub proof fn lemma_block_stop(b: Seq<u8>, i: int)
    requires
        i <= b.len(),
    ensures
        i <= block_stop(b, i) <= b.len(),
    decreases b.len() - i,
{
    if i + 1 < b.len() && !lexer::closes_block(b, i) {
        lemma_block_stop(b, i + 1);
    }
}

/// The first offset at or after `i` where neither white space nor a comment stands.
pub open spec fn skip_trivia(b: Seq<u8>, i: int) -> int
    decreases b.len() - i,
    when 0 <= i
    via skip_trivia_decreases
{
    if i >= b.len() {
        i
    } else if text::is_space(b[i]) {
        skip_trivia(b, i + 1)
    } else if let Some(j) = lexer::opens_line_comment(b, i) {
        skip_trivia(b, lexer::line_end(b, j))
    } else if lexer::opens_block_comment(b, i) {
        skip_trivia(b, block_stop(b, i + 2))
    } else {
        i
    }
}

#[via_fn]
proof fn skip_trivia_decreases(b: Seq<u8>, i: int) {
    if i < b.len() {
        if let Some(j) = lexer::opens_line_comment(b, i) {
            lexer::lemma_line_end(b, j);
        } else if lexer::opens_block_comment(b, i) {
            lemma_block_stop(b, i + 2);
        }
    }
}

/// The first offset at or after `i` where neither white space nor a comment stands.
///
/// The search for the end of a block comment stops one byte short of the end of the source, so an
/// unterminated one is left at its last byte.
pub fn skip_ws_and_comments(content: &str, i: usize) -> (r: usize)
    ensures
        r == skip_trivia(content.spec_bytes(), i as int),
{
    let b = content.as_bytes();
    let mut k: usize = i;
    while k < b.len()
        invariant
            b@ == content.spec_bytes(),
            skip_trivia(b@, k as int) == skip_trivia(b@, i as int),
        decreases b@.len() - k,
    {
        if text::byte_is_space(b[k]) {
            k += 1;
        } else if b[k] == 0x23 {
            k = lexer::find_line_end(b, k + 1);
        } else if b[k] == 0x2f && k + 1 < b.len() && b[k + 1] == 0x2f {
            k = lexer::find_line_end(b, k + 2);
        } else if b[k] == 0x2f && k + 1 < b.len() && b[k + 1] == 0x2a {
            k = find_block_stop(b, k + 2);
        } else {
            return k;
        }
    }
    k
}

/// Where the search for the `*/` of a block comment stops.
fn find_block_stop(b: &[u8], from: usize) -> (r: usize)
    requires
        from <= b@.len(),
    ensures
        r == block_stop(b@, from as int),
        from <= r <= b@.len(),
{
    let mut k: usize = from;
    while k < b.len() && k + 1 < b.len()
        invariant
            from <= k <= b@.len(),
            block_stop(b@, k as int) == block_stop(b@, from as int),
        decreases b@.len() - k,
    {
        if b[k] == 0x2a && b[k + 1] == 0x2f {
            return k + 2;
        }
        k += 1;
    }
    k
}

/// Whether the word before `open_paren` is `array`, in any case.
pub open spec fn is_array_call(b: Seq<u8>, open_paren: int) -> bool {
    let end = spaces_before(b, open_paren);
    let start = word_before(b, end);
    start < end && text::same_ignoring_case(b.subrange(start, end), "array".spec_bytes())
}

/// Whether the parenthesis at `open_paren` opens a long array, `array(...)`.
pub fn is_array_call_before(content: &str, open_paren: usize) -> (r: bool)
    requires
        open_paren <= content.spec_bytes().len(),
    ensures
        r == is_array_call(content.spec_bytes(), open_paren as int),
{
    let b = content.as_bytes();
    let end = skip_spaces_before(b, open_paren);
    let mut start: usize = end;
    while start > 0 && (text::byte_is_alphanumeric(b[start - 1]) || b[start - 1] == 0x5f)
        invariant
            start <= end <= b@.len(),
            word_before(b@, start as int) == word_before(b@, end as int),
        decreases start,
    {
        start -= 1;
    }
    if start == end {
        return false;
    }
    text::bytes_match_ignoring_case(b, start, end, "array".as_bytes())
}

/// An array whose end is still to come.
#[derive(Debug, Clone, Copy)]
pub struct ConfigArrayFrame {
    /// The byte that closes it.
    pub close: u8,
    /// How long the path was outside of it.
    pub prev_path_len: usize,
}

/// What is known at a point of a configuration file.
pub struct DeclarationState {
    /// The keys of the arrays around the point, the outermost first.
    pub path: Seq<Seq<char>>,
    /// The arrays around the point.
    pub frames: Seq<ConfigArrayFrame>,
    /// The path that an array that starts now would have, once a `'key' =>` has been read.
    pub pending: Option<Seq<Seq<char>>>,
    /// Where the parenthesis stands that belongs to the last word `array`.
    pub array_paren: Option<int>,
    /// The keys found so far.
    pub found: Seq<KeySpan>,
}

/// `prefix` and the parts, with a dot before each part.
pub open spec fn dotted(prefix: Seq<char>, parts: Seq<Seq<char>>) -> Seq<char>
    decreases parts.len(),
{
    if parts.len() == 0 {
        prefix
    } else {
        dotted(prefix, parts.drop_last()).push('.') + parts.last()
    }
}

/// Whether `=>` stands at `i`.
pub open spec fn is_arrow(b: Seq<u8>, i: int) -> bool {
    0 <= i && i + 1 < b.len() && b[i] == 0x3d && b[i + 1] == 0x3e
}

/// Entering an array that `close` ends: the pending path, if there is one, becomes the path.
pub open spec fn enter_array(s: DeclarationState, close: u8) -> DeclarationState {
    DeclarationState {
        path: match s.pending {
            Some(path) => path,
            None => s.path,
        },
        frames: s.frames.push(
            ConfigArrayFrame { close, prev_path_len: s.path.len() as usize },
        ),
        pending: None,
        array_paren: s.array_paren,
        found: s.found,
    }
}

/// Leaving the innermost array: the path is cut back to what it was outside.
pub open spec fn leave_array(s: DeclarationState) -> DeclarationState {
    let depth = s.frames.last().prev_path_len;
    DeclarationState {
        path: if depth < s.path.len() {
            s.path.take(depth as int)
        } else {
            s.path
        },
        frames: s.frames.drop_last(),
        ..s
    }
}

/// Reading a string literal: with `=>` behind it, it declares a key below the path; without, it is a
/// value, and no array that starts later belongs to the key before it.
pub open spec fn read_literal(
    b: Seq<u8>,
    prefix: Seq<char>,
    s: DeclarationState,
    t: lexer::Lexeme,
) -> DeclarationState {
    if is_arrow(b, skip_trivia(b, t.end)) {
        let here = literal_span(b, t);
        let full = s.path.push(here.key);
        DeclarationState {
            pending: Some(full),
            found: s.found.push(KeySpan { key: dotted(prefix, full), ..here }),
            ..s
        }
    } else {
        DeclarationState { pending: None, ..s }
    }
}

/// Where the parenthesis of `array(...)` stands, if the byte at `i` belongs to the word `array` and a
/// parenthesis follows that word, white space and comments aside.
pub open spec fn paren_of_array_word(b: Seq<u8>, i: int) -> Option<int> {
    let start = word_before(b, i);
    let paren = skip_trivia(b, start + 5);
    if 0 <= start && i < start + 5 <= b.len() && text::same_ignoring_case(
        b.subrange(start, start + 5),
        "array".spec_bytes(),
    ) && paren < b.len() && b[paren] == 0x28 {
        Some(paren)
    } else {
        None
    }
}

/// Reading one token of a configuration file.
pub open spec fn read_token(
    b: Seq<u8>,
    prefix: Seq<char>,
    s: DeclarationState,
    t: lexer::Lexeme,
) -> DeclarationState {
    match t.kind {
        TokenKind::Comment => s,
        TokenKind::Unclosed => s,
        TokenKind::Literal => read_literal(b, prefix, s, t),
        TokenKind::Other => {
            let c = b[t.start];
            if text::is_space(c) {
                s
            } else if c == 0x5b {
                enter_array(s, 0x5d)
            } else if c == 0x28 && (is_array_call(b, t.start) || s.array_paren == Some(t.start)) {
                enter_array(s, 0x29)
            } else if s.frames.len() > 0 && c == s.frames.last().close {
                leave_array(s)
            } else if s.pending is Some && (c == 0x3d || c == 0x3e || c == 0x2c) {
                s
            } else if paren_of_array_word(b, t.start) is Some {
                DeclarationState { array_paren: paren_of_array_word(b, t.start), ..s }
            } else {
                DeclarationState { pending: None, ..s }
            }
        },
    }
}

/// Reading the tokens `ts` one after the other.
pub open spec fn read_tokens(
    b: Seq<u8>,
    prefix: Seq<char>,
    s: DeclarationState,
    ts: Seq<lexer::Lexeme>,
) -> DeclarationState
    decreases ts.len(),
{
    if ts.len() == 0 {
        s
    } else {
        read_tokens(b, prefix, read_token(b, prefix, s, ts[0]), ts.drop_first())
    }
}

/// The state at the start of a file.
pub open spec fn start_state() -> DeclarationState {
    DeclarationState {
        path: Seq::empty(),
        frames: Seq::empty(),
        pending: None,
        array_paren: None,
        found: Seq::empty(),
    }
}

/// The keys that a configuration file declares under `prefix`, in the order of the source.
pub open spec fn declarations(b: Seq<u8>, prefix: Seq<char>) -> Seq<KeySpan> {
    read_tokens(b, prefix, start_state(), lexer::tokens(b, 0)).found
}

/// `prefix` and the parts, with a dot before each part.
pub fn dotted_key(prefix: &str, parts: &Vec<String>) -> (r: String)
    ensures
        r@ == dotted(prefix@, text::views(parts@)),
{
    let mut r = prefix.to_owned();
    let ghost all = text::views(parts@);
    let mut k: usize = 0;
    assert(all.take(0) =~= Seq::empty());
    while k < parts.len()
        invariant
            k <= parts@.len(),
            all == text::views(parts@),
            r@ == dotted(prefix@, all.take(k as int)),
        decreases parts@.len() - k,
    {
        r.append(".");
        r.append(parts[k].as_str());
        proof {
            reveal_strlit(".");
            assert(all.take(k + 1).drop_last() =~= all.take(k as int));
            assert(all.take(k + 1).last() == parts@[k as int]@);
            assert(r@ =~= dotted(prefix@, all.take(k as int)).push('.') + parts@[k as int]@);
        }
        k += 1;
    }
    assert(all.take(k as int) =~= all);
    r
}

/// Where the parenthesis of `array(...)` stands, if the byte at `i` belongs to the word `array`.
fn find_array_paren(content: &str, i: usize) -> (r: Option<usize>)
    requires
        i < content.spec_bytes().len(),
    ensures
        match r {
            Some(paren) => paren_of_array_word(content.spec_bytes(), i as int) == Some(
                paren as int,
            ),
            None => paren_of_array_word(content.spec_bytes(), i as int) is None,
        },
{
    let b = content.as_bytes();
    let size = b.len();
    let mut start: usize = i;
    while start > 0 && (text::byte_is_alphanumeric(b[start - 1]) || b[start - 1] == 0x5f)
        invariant
            start <= i < b@.len(),
            word_before(b@, start as int) == word_before(b@, i as int),
        decreases start,
    {
        start -= 1;
    }
    if i - start >= 5 || size - start < 5 {
        return None;
    }
    if !text::bytes_match_ignoring_case(b, start, start + 5, "array".as_bytes()) {
        return None;
    }
    let paren = skip_ws_and_comments(content, start + 5);
    if paren < size && b[paren] == 0x28 {
        Some(paren)
    } else {
        None
    }
}

/// The keys that a `config/*.php` file declares, in dot notation (`app.mail.from.address`), each
/// with the span of its last part.
pub fn collect_laravel_config_declarations(content: &str, prefix: &str) -> (r: Vec<ConfigKeyMatch>)
    ensures
        spans(r@) == declarations(content.spec_bytes(), prefix@),
{
    let b = content.as_bytes();
    let mut out: Vec<ConfigKeyMatch> = Vec::new();
    let mut frames: Vec<ConfigArrayFrame> = Vec::new();
    let mut path: Vec<String> = Vec::new();
    let mut pending_path: Option<Vec<String>> = None;
    let mut array_paren: Option<usize> = None;
    let mut i: usize = 0;
    let ghost mut s = start_state();
    proof {
        assert(text::views(path@) =~= s.path);
        assert(frames@ =~= s.frames);
        assert(spans(out@) =~= s.found);
    }
    while i < b.len()
        invariant
            b@ == content.spec_bytes(),
            i <= b@.len(),
            s.path == text::views(path@),
            s.frames == frames@,
            s.found == spans(out@),
            match pending_path {
                Some(p) => s.pending == Some(text::views(p@)),
                None => s.pending is None,
            },
            match array_paren {
                Some(paren) => s.array_paren == Some(paren as int),
                None => s.array_paren is None,
            },
            read_tokens(b@, prefix@, s, lexer::tokens(b@, i as int)).found == declarations(
                b@,
                prefix@,
            ),
        decreases b@.len() - i,
    {
        let t = lexer::next_token(b, i);
        let ghost rest = lexer::tokens(b@, t.end as int);
        let ghost next = read_token(b@, prefix@, s, t@);
        proof {
            let all = lexer::tokens(b@, i as int);
            assert(all == seq![t@] + rest);
            assert(all[0] == t@);
            assert(all.drop_first() =~= rest);
        }
        match t.kind {
            TokenKind::Comment => {},
            TokenKind::Unclosed => {},
            TokenKind::Literal => {
                let after = skip_ws_and_comments(content, t.end);
                if after < b.len() && after + 1 < b.len() && b[after] == 0x3d && b[after + 1]
                    == 0x3e {
                    proof {
                        lemma_literal_boundaries(content@, i as int);
                    }
                    let part = text::slice(content, t.start + 1, t.end - 1);
                    let mut full = text::clone_texts(&path);
                    full.push(part.to_owned());
                    proof {
                        assert(text::views(full@) =~= s.path.push(part@));
                    }
                    let key = dotted_key(prefix, &full);
                    let ghost before = out@;
                    out.push(ConfigKeyMatch { key, start: t.start + 1, end: t.end - 1 });
                    proof {
                        assert(spans(out@) =~= spans(before).push(out@.last()@));
                    }
                    pending_path = Some(full);
                } else {
                    pending_path = None;
                }
            },
            TokenKind::Other => {
                let c = b[i];
                if text::byte_is_space(c) {
                } else if c == 0x5b || (c == 0x28 && (is_array_call_before(content, i)
                    || array_paren == Some(i))) {
                    let close: u8 = if c == 0x5b {
                        0x5d
                    } else {
                        0x29
                    };
                    let prev_path_len = path.len();
                    if let Some(p) = pending_path.take() {
                        path = p;
                    }
                    frames.push(ConfigArrayFrame { close, prev_path_len });
                } else if frames.len() > 0 && c == frames[frames.len() - 1].close {
                    if let Some(frame) = frames.pop() {
                        let ghost before = path@;
                        path.truncate(frame.prev_path_len);
                        proof {
                            assert(text::views(path@) =~= next.path);
                        }
                    }
                } else if pending_path.is_some() && (c == 0x3d || c == 0x3e || c == 0x2c) {
                } else {
                    let paren = find_array_paren(content, i);
                    if paren.is_some() {
                        array_paren = paren;
                    } else {
                        pending_path = None;
                    }
                }
            },
        }
        proof {
            s = next;
        }
        i = t.end;
    }
    out
}

/// The non-empty segments of a path.
pub open spec fn path_segments(path: Seq<char>) -> Seq<Seq<char>> {
    text::split_at_char(path, '/').filter(|s: Seq<char>| s.len() > 0)
}

/// The stem of a PHP file that lies somewhere below a directory `config`.
pub open spec fn config_prefix(path: Seq<char>) -> Option<Seq<char>> {
    let segments = path_segments(path);
    if segments.len() > 0 && segments.drop_last().contains("config"@) && ".php"@.is_suffix_of(
        segments.last(),
    ) && segments.last().len() > 4 {
        Some(segments.last().take(segments.last().len() - 4))
    } else {
        None
    }
}

/// The prefix that a URI gives to the keys of its document, if the URI is a URL.
pub open spec fn uri_prefix(uri: Seq<char>) -> Option<Seq<char>> {
    match urls::url_parts(uri) {
        Some((_, path)) => config_prefix(path),
        None => None,
    }
}

/// `app` for a path like `/.../config/app.php`.
pub fn config_prefix_from_path(path: &str) -> (r: Option<String>)
    ensures
        match r {
            Some(stem) => config_prefix(path@) == Some(stem@),
            None => config_prefix(path@) is None,
        },
{
    let pieces = text::split(path, '/');
    let ghost all = text::views(pieces@);
    let ghost keep = |s: Seq<char>| s.len() > 0;
    let mut segments: Vec<String> = Vec::new();
    let mut k: usize = 0;
    proof {
        reveal(Seq::filter);
        assert(all.take(0) =~= Seq::empty());
        assert(text::views(segments@) =~= all.take(0).filter(keep));
    }
    while k < pieces.len()
        invariant
            k <= pieces@.len(),
            all == text::views(pieces@),
            keep == (|s: Seq<char>| s.len() > 0),
            text::views(segments@) == all.take(k as int).filter(keep),
        decreases pieces@.len() - k,
    {
        let ghost before = segments@;
        proof {
            reveal(Seq::filter);
            assert(all.take(k + 1).drop_last() =~= all.take(k as int));
            assert(all.take(k + 1).last() == pieces@[k as int]@);
        }
        if !pieces[k].as_str().is_empty() {
            segments.push(pieces[k].clone());
            assert(text::views(segments@) =~= text::views(before).push(pieces@[k as int]@));
        }
        k += 1;
    }
    assert(all.take(k as int) =~= all);
    let ghost segs = path_segments(path@);
    assert(text::views(segments@) == segs);
    if segments.len() == 0 {
        return None;
    }
    let last = segments.len() - 1;
    let mut below_config = false;
    let mut j: usize = 0;
    while j < last
        invariant
            j <= last,
            last + 1 == segments@.len(),
            segs == text::views(segments@),
            below_config == segs.take(j as int).contains("config"@),
        decreases last - j,
    {
        let here = text::str_eq(segments[j].as_str(), "config");
        proof {
            assert(segs.take(j + 1) =~= segs.take(j as int).push(segs[j as int]));
            if here {
                assert(segs.take(j + 1)[j as int] == "config"@);
            }
            if below_config {
                let i = segs.take(j as int).index_of("config"@);
                assert(segs.take(j + 1)[i] == "config"@);
            }
            if segs.take(j + 1).contains("config"@) && !here {
                let i = segs.take(j + 1).index_of("config"@);
                assert(segs.take(j as int)[i] == "config"@);
            }
        }
        below_config = below_config || here;
        j += 1;
    }
    assert(segs.take(last as int) =~= segs.drop_last());
    let file = segments[last].as_str();
    proof {
        reveal_strlit(".php");
    }
    if !below_config || !text::ends_with(file, ".php") {
        return None;
    }
    let size = file.unicode_len();
    if size == 4 {
        return None;
    }
    assert(file@.subrange(0, size - 4) =~= file@.take(size - 4));
    Some(file.substring_char(0, size - 4).to_owned())
}

/// `app` for a URI like `file:///.../config/app.php`.
pub fn laravel_config_prefix_from_uri(uri: &str) -> (r: Option<String>)
    ensures
        match r {
            Some(stem) => uri_prefix(uri@) == Some(stem@),
            None => uri_prefix(uri@) is None,
        },
{
    match urls::parse_url(uri) {
        Some((_, path)) => config_prefix_from_path(path.as_str()),
        None => None,
    }
}

/// The key of the usage under the cursor, or else of the declaration under it, when the document
/// declares keys under a prefix.
pub open spec fn key_under_cursor(
    b: Seq<u8>,
    prefix: Option<Seq<char>>,
    offset: int,
) -> Option<Seq<char>> {
    match first_covering(usages(b), offset) {
        Some(m) => Some(m.key),
        None => match prefix {
            Some(p) => match first_covering(declarations(b, p), offset) {
                Some(m) => Some(m.key),
                None => None,
            },
            None => None,
        },
    }
}

/// The configuration key under the cursor in a document whose keys have the given prefix.
pub fn key_at_offset(content: &str, prefix: Option<String>, cursor_offset: usize) -> (r: Option<
    String,
>)
    ensures
        ({
            let p = match prefix {
                Some(p) => Some(p@),
                None => None,
            };
            match r {
                Some(key) => key_under_cursor(content.spec_bytes(), p, cursor_offset as int)
                    == Some(key@),
                None => key_under_cursor(content.spec_bytes(), p, cursor_offset as int) is None,
            }
        }),
{
    if let Some(m) = find_laravel_config_usage_at_cursor(content, cursor_offset) {
        return Some(m.key);
    }
    match prefix {
        Some(p) => {
            let declared = collect_laravel_config_declarations(content, p.as_str());
            match take_first_covering(declared, cursor_offset) {
                Some(m) => Some(m.key),
                None => None,
            }
        },
        None => None,
    }
}

/// The configuration key under the cursor, at a usage (`config('app.name')`) or at a declaration in
/// a `config/*.php` file.
pub fn config_key_at_cursor(uri: &str, content: &str, cursor_offset: usize) -> (r: Option<String>)
    ensures
        match r {
            Some(key) => key_under_cursor(
                content.spec_bytes(),
                uri_prefix(uri@),
                cursor_offset as int,
            ) == Some(key@),
            None => key_under_cursor(
                content.spec_bytes(),
                uri_prefix(uri@),
                cursor_offset as int,
            ) is None,
        },
{
    key_at_offset(content, laravel_config_prefix_from_uri(uri), cursor_offset)
}

} // verus!
