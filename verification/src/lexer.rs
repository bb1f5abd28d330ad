//! A coarse split of PHP source into comments, string literals and single bytes.
//!
//! It looks at bytes only and knows nothing of PHP beyond where comments and quoted strings begin
//! and end. A backslash inside a string takes the next byte with it.
use vstd::prelude::*;

verus! {

/// What a token is.
#[derive(Clone, Copy, PartialEq, Eq, Structural, Debug)]
pub enum TokenKind {
    /// `// ...`, `# ...` or `/* ... */`.
    Comment,
    /// A quoted string with its closing quote.
    Literal,
    /// A quoted string that the end of the source cuts off.
    Unclosed,
    /// Any other byte.
    Other,
}

/// The bytes `start..end` of the source.
#[derive(Clone, Copy, PartialEq, Eq, Structural, Debug)]
pub struct Token {
    pub kind: TokenKind,
    pub start: usize,
    pub end: usize,
}

/// A token with its offsets as mathematical integers.
pub struct Lexeme {
    pub kind: TokenKind,
    pub start: int,
    pub end: int,
}

impl View for Token {
    type V = Lexeme;

    open spec fn view(&self) -> Lexeme {
        Lexeme { kind: self.kind, start: self.start as int, end: self.end as int }
    }
}

/// Whether `b` delimits a string.
pub open spec fn is_quote(b: u8) -> bool {
    b == 0x27 || b == 0x22
}

/// Just behind the first line feed at or after `i`, or the end of the source.
pub open spec fn line_end(b: Seq<u8>, i: int) -> int
    decreases b.len() - i,
{
    if i >= b.len() {
        b.len() as int
    } else if b[i] == 0x0a {
        i + 1
    } else {
        line_end(b, i + 1)
    }
}

/// Whether `*/` stands at `i`.
pub open spec fn closes_block(b: Seq<u8>, i: int) -> bool {
    0 <= i && i + 1 < b.len() && b[i] == 0x2a && b[i + 1] == 0x2f
}

/// Just behind the first `*/` at or after `i`, or the end of the source.
pub open spec fn block_end(b: Seq<u8>, i: int) -> int
    decreases b.len() - i,
{
    if i >= b.len() {
        b.len() as int
    } else if closes_block(b, i) {
        i + 2
    } else {
        block_end(b, i + 1)
    }
}

/// The first byte `quote` at or after `i` that no backslash escapes, or the end of the source.
pub open spec fn closing_quote(b: Seq<u8>, quote: u8, i: int) -> int
    decreases b.len() + 1 - i,
{
    if i >= b.len() {
        b.len() as int
    } else if b[i] == 0x5c {
        closing_quote(b, quote, i + 2)
    } else if b[i] == quote {
        i
    } else {
        closing_quote(b, quote, i + 1)
    }
}

/// Whether a line comment starts at `i`, and where its text starts.
pub open spec fn opens_line_comment(b: Seq<u8>, i: int) -> Option<int> {
    if b[i] == 0x23 {
        Some(i + 1)
    } else if b[i] == 0x2f && i + 1 < b.len() && b[i + 1] == 0x2f {
        Some(i + 2)
    } else {
        None
    }
}

/// Whether `/*` stands at `i`.
pub open spec fn opens_block_comment(b: Seq<u8>, i: int) -> bool {
    b[i] == 0x2f && i + 1 < b.len() && b[i + 1] == 0x2a
}

/// The token that starts at `i`.
pub open spec fn token_at(b: Seq<u8>, i: int) -> Lexeme {
    if let Some(j) = opens_line_comment(b, i) {
        Lexeme { kind: TokenKind::Comment, start: i, end: line_end(b, j) }
    } else if opens_block_comment(b, i) {
        Lexeme { kind: TokenKind::Comment, start: i, end: block_end(b, i + 2) }
    } else if is_quote(b[i]) {
        let close = closing_quote(b, b[i], i + 1);
        if close < b.len() {
            Lexeme { kind: TokenKind::Literal, start: i, end: close + 1 }
        } else {
            Lexeme { kind: TokenKind::Unclosed, start: i, end: b.len() as int }
        }
    } else {
        Lexeme { kind: TokenKind::Other, start: i, end: i + 1 }
    }
}

/// A line ends within the source.
pub proof fn lemma_line_end(b: Seq<u8>, i: int)
    ensures
        i <= b.len() ==> i <= line_end(b, i) <= b.len(),
    decreases b.len() - i,
{
    if i < b.len() && b[i] != 0x0a {
        lemma_line_end(b, i + 1);
    }
}

/// A block comment ends within the source.
pub proof fn lemma_block_end(b: Seq<u8>, i: int)
    ensures
        i <= b.len() ==> i <= block_end(b, i) <= b.len(),
    decreases b.len() - i,
{
    if i < b.len() && !closes_block(b, i) {
        lemma_block_end(b, i + 1);
    }
}

/// A closing quote is within the source, and is a quote.
pub proof fn lemma_closing_quote(b: Seq<u8>, quote: u8, i: int)
    ensures
        i <= b.len() ==> i <= closing_quote(b, quote, i) <= b.len(),
        closing_quote(b, quote, i) <= b.len(),
        closing_quote(b, quote, i) < b.len() ==> b[closing_quote(b, quote, i)] == quote,
    decreases b.len() + 1 - i,
{
    if i < b.len() {
        if b[i] == 0x5c {
            lemma_closing_quote(b, quote, i + 2);
        } else if b[i] != quote {
            lemma_closing_quote(b, quote, i + 1);
        }
    }
}

/// A token ends behind its start and within the source; a literal is framed by one quote byte.
pub proof fn lemma_token_at(b: Seq<u8>, i: int)
    requires
        0 <= i < b.len(),
    ensures
        token_at(b, i).start == i,
        i < token_at(b, i).end <= b.len(),
        token_at(b, i).kind == TokenKind::Literal ==> {
            &&& i + 2 <= token_at(b, i).end
            &&& is_quote(b[i])
            &&& b[token_at(b, i).end - 1] == b[i]
        },
        token_at(b, i).kind == TokenKind::Unclosed ==> token_at(b, i).end == b.len(),
{
    if let Some(j) = opens_line_comment(b, i) {
        lemma_line_end(b, j);
    } else if opens_block_comment(b, i) {
        lemma_block_end(b, i + 2);
    } else if is_quote(b[i]) {
        lemma_closing_quote(b, b[i], i + 1);
    }
}

/// The tokens of the source from `i` on.
pub open spec fn tokens(b: Seq<u8>, i: int) -> Seq<Lexeme>
    decreases b.len() - i,
    when 0 <= i
    via tokens_decreases
{
    if i >= b.len() {
        Seq::empty()
    } else {
        seq![token_at(b, i)] + tokens(b, token_at(b, i).end)
    }
}

#[via_fn]
proof fn tokens_decreases(b: Seq<u8>, i: int) {
    if i < b.len() {
        lemma_token_at(b, i);
    }
}

/// The token that starts at `i`.
pub fn next_token(b: &[u8], i: usize) -> (t: Token)
    requires
        i < b@.len(),
    ensures
        t@ == token_at(b@, i as int),
        i < t.end <= b@.len(),
{
    proof {
        lemma_token_at(b@, i as int);
    }
    let c = b[i];
    if c == 0x2f && i + 1 < b.len() && b[i + 1] == 0x2f {
        return Token { kind: TokenKind::Comment, start: i, end: find_line_end(b, i + 2) };
    }
    if c == 0x2f && i + 1 < b.len() && b[i + 1] == 0x2a {
        return Token { kind: TokenKind::Comment, start: i, end: find_block_end(b, i + 2) };
    }
    if c == 0x23 {
        return Token { kind: TokenKind::Comment, start: i, end: find_line_end(b, i + 1) };
    }
    if c == 0x27 || c == 0x22 {
        let close = find_closing_quote(b, c, i + 1);
        if close < b.len() {
            return Token { kind: TokenKind::Literal, start: i, end: close + 1 };
        }
        return Token { kind: TokenKind::Unclosed, start: i, end: b.len() };
    }
    Token { kind: TokenKind::Other, start: i, end: i + 1 }
}

/// Just behind the first line feed at or after `from`, or the end of the source.
pub fn find_line_end(b: &[u8], from: usize) -> (r: usize)
    requires
        from <= b@.len(),
    ensures
        r == line_end(b@, from as int),
        from <= r <= b@.len(),
{
    let mut i: usize = from;
    while i < b.len()
        invariant
            from <= i <= b@.len(),
            line_end(b@, i as int) == line_end(b@, from as int),
        decreases b@.len() - i,
    {
        if b[i] == 0x0a {
            return i + 1;
        }
        i += 1;
    }
    i
}

/// Just behind the first `*/` at or after `from`, or the end of the source.
fn find_block_end(b: &[u8], from: usize) -> (r: usize)
    requires
        from <= b@.len(),
    ensures
        r == block_end(b@, from as int),
        from <= r <= b@.len(),
{
    let mut i: usize = from;
    while i < b.len()
        invariant
            from <= i <= b@.len(),
            block_end(b@, i as int) == block_end(b@, from as int),
        decreases b@.len() - i,
    {
        if b[i] == 0x2a && i + 1 < b.len() && b[i + 1] == 0x2f {
            return i + 2;
        }
        i += 1;
    }
    i
}

/// The first byte `quote` at or after `from` that no backslash escapes, or the end of the source.
fn find_closing_quote(b: &[u8], quote: u8, from: usize) -> (r: usize)
    requires
        from <= b@.len(),
    ensures
        r == closing_quote(b@, quote, from as int),
        from <= r <= b@.len(),
{
    let mut i: usize = from;
    while i < b.len()
        invariant
            from <= i <= b@.len(),
            closing_quote(b@, quote, i as int) == closing_quote(b@, quote, from as int),
        decreases b@.len() - i,
    {
        if b[i] == 0x5c {
            if i + 1 < b.len() {
                i += 2;
            } else {
                assert(closing_quote(b@, quote, i + 2) == b@.len());
                i += 1;
            }
        } else if b[i] == quote {
            return i;
        } else {
            i += 1;
        }
    }
    i
}

} // verus!
