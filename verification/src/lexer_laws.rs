//! What holds of all tokens, told from the bytes of the source alone.
use vstd::prelude::*;

use crate::lexer;
use crate::lexer::TokenKind;

verus! {

/// Whether the two bytes stand at `i`.
pub open spec fn pair_at(b: Seq<u8>, i: int, first: u8, second: u8) -> bool {
    0 <= i && i + 1 < b.len() && b[i] == first && b[i + 1] == second
}

/// How many backslashes stand directly before `k`, none before `from` counted.
pub open spec fn backslashes_before(b: Seq<u8>, from: int, k: int) -> nat
    decreases k - from,
{
    if from < k <= b.len() && b[k - 1] == 0x5c {
        backslashes_before(b, from, k - 1) + 1
    } else {
        0
    }
}

/// Whether a string that opens before `from` with `quote` is closed at `k`: by the same quote, with an
/// even number of backslashes before it.
pub open spec fn closes_string(b: Seq<u8>, quote: u8, from: int, k: int) -> bool {
    from <= k < b.len() && b[k] == quote && backslashes_before(b, from, k) % 2 == 0
}

/// The end of a block comment is the first `*/` or the end of the source.
proof fn lemma_block_end_is_first(b: Seq<u8>, i: int)
    requires
        0 <= i <= b.len(),
    ensures
        ({
            let e = lexer::block_end(b, i);
            ||| i + 2 <= e <= b.len() && pair_at(b, e - 2, 0x2a, 0x2f) && forall|k: int|
                i <= k < e - 2 ==> !#[trigger] pair_at(b, k, 0x2a, 0x2f)
            ||| e == b.len() && forall|k: int| i <= k ==> !#[trigger] pair_at(b, k, 0x2a, 0x2f)
        }),
    decreases b.len() - i,
{
    if i < b.len() && !lexer::closes_block(b, i) {
        lemma_block_end_is_first(b, i + 1);
        assert(!pair_at(b, i, 0x2a, 0x2f));
    }
}

/// Where `/*` opens a comment, the comment ends just behind the first `*/` that follows, over however
/// many lines, and at the end of the source only if none follows.
pub proof fn law_block_comment_ends_at_first_close(b: Seq<u8>, i: int)
    requires
        pair_at(b, i, 0x2f, 0x2a),
    ensures
        ({
            let t = lexer::token_at(b, i);
            &&& t.kind == TokenKind::Comment
            &&& t.start == i
            &&& {
                ||| i + 4 <= t.end <= b.len() && pair_at(b, t.end - 2, 0x2a, 0x2f) && forall|k: int|
                    i + 2 <= k < t.end - 2 ==> !#[trigger] pair_at(b, k, 0x2a, 0x2f)
                ||| t.end == b.len() && forall|k: int|
                    i + 2 <= k ==> !#[trigger] pair_at(b, k, 0x2a, 0x2f)
            }
        }),
{
    lemma_block_end_is_first(b, i + 2);
}

/// The end of a line is the first line feed or the end of the source.
proof fn lemma_line_end_is_first(b: Seq<u8>, i: int)
    requires
        0 <= i <= b.len(),
    ensures
        ({
            let e = lexer::line_end(b, i);
            &&& i <= e <= b.len()
            &&& e == b.len() || (i < e && b[e - 1] == 0x0a)
            &&& forall|k: int| i <= k < e - 1 ==> #[trigger] b[k] != 0x0a
        }),
    decreases b.len() - i,
{
    if i < b.len() && b[i] != 0x0a {
        lemma_line_end_is_first(b, i + 1);
    }
}

/// Where `#` or `//` opens a comment, the comment ends just behind the first line feed that follows,
/// and at the end of the source only if none follows.
pub proof fn law_line_comment_ends_at_line_feed(b: Seq<u8>, i: int)
    requires
        0 <= i < b.len(),
        b[i] == 0x23 || pair_at(b, i, 0x2f, 0x2f),
    ensures
        ({
            let t = lexer::token_at(b, i);
            &&& t.kind == TokenKind::Comment
            &&& t.start == i
            &&& i < t.end <= b.len()
            &&& t.end == b.len() || b[t.end - 1] == 0x0a
            &&& forall|k: int| i <= k < t.end - 1 ==> #[trigger] b[k] != 0x0a
        }),
{
    if b[i] == 0x23 {
        lemma_line_end_is_first(b, i + 1);
    } else {
        lemma_line_end_is_first(b, i + 2);
    }
}

/// The closing quote is the first that no backslash escapes.
proof fn lemma_closing_quote_is_first(b: Seq<u8>, quote: u8, from: int, i: int)
    requires
        0 <= from <= i,
        quote != 0x5c,
        i <= b.len() ==> backslashes_before(b, from, i) % 2 == 0,
    ensures
        ({
            let e = lexer::closing_quote(b, quote, i);
            &&& e < b.len() ==> closes_string(b, quote, from, e) && i <= e
            &&& e <= b.len()
            &&& forall|k: int| i <= k < e ==> !#[trigger] closes_string(b, quote, from, k)
        }),
    decreases b.len() + 1 - i,
{
    if i < b.len() {
        if b[i] == 0x5c {
            assert(backslashes_before(b, from, i + 1) == backslashes_before(b, from, i) + 1);
            assert(!closes_string(b, quote, from, i));
            assert(!closes_string(b, quote, from, i + 1));
            if i + 1 < b.len() && b[i + 1] == 0x5c {
                assert(backslashes_before(b, from, i + 2) == backslashes_before(b, from, i + 1)
                    + 1);
            }
            lemma_closing_quote_is_first(b, quote, from, i + 2);
        } else if b[i] != quote {
            assert(!closes_string(b, quote, from, i));
            lemma_closing_quote_is_first(b, quote, from, i + 1);
        }
    }
}

/// Where a quote opens a string, the string ends just behind the first quote of the same kind that no
/// backslash escapes. Without one it is cut off by the end of the source.
pub proof fn law_string_ends_at_first_unescaped_quote(b: Seq<u8>, i: int)
    requires
        0 <= i < b.len(),
        b[i] == 0x27 || b[i] == 0x22,
    ensures
        ({
            let t = lexer::token_at(b, i);
            &&& t.start == i
            &&& match t.kind {
                TokenKind::Literal => {
                    &&& closes_string(b, b[i], i + 1, t.end - 1)
                    &&& forall|k: int|
                        i + 1 <= k < t.end - 1 ==> !#[trigger] closes_string(b, b[i], i + 1, k)
                },
                TokenKind::Unclosed => {
                    &&& t.end == b.len()
                    &&& forall|k: int| !#[trigger] closes_string(b, b[i], i + 1, k)
                },
                _ => false,
            }
        }),
{
    lemma_closing_quote_is_first(b, b[i], i + 1, i + 1);
}

/// Any other byte is a token of its own.
pub proof fn law_other_bytes_stand_alone(b: Seq<u8>, i: int)
    requires
        0 <= i < b.len(),
        b[i] != 0x27 && b[i] != 0x22 && b[i] != 0x23,
        !pair_at(b, i, 0x2f, 0x2f) && !pair_at(b, i, 0x2f, 0x2a),
    ensures
        lexer::token_at(b, i).kind == TokenKind::Other,
        lexer::token_at(b, i).start == i,
        lexer::token_at(b, i).end == i + 1,
{
}

} // verus!
