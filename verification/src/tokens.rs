use vstd::prelude::*;
use vstd::string::*;
use vstd::utf8::*;

use crate::lexer::{
    at_boundary, error_spans, lemma_at_boundary_is_char_boundary, lemma_lexeme_end_boundary,
    lemma_next_lexeme_bounds, law_errors_in_order, law_tokens_in_order, next_lexeme_exec, token_spans, Dialect,
    Outcome,
};

verus! {

/// The kinds of token of the Harpy language.
#[derive(Clone, Copy, Debug, PartialEq, Eq, Structural)]
pub enum Token {
    /// `main`
    Fn,
    /// `fn`
    Function,
    /// `GET`
    Get,
    /// `POST`
    Post,
    /// `PUT`
    Put,
    /// `DELETE`
    Delete,
    /// `PATCH`
    Patch,
    /// `$` followed by path characters
    Execute,
    /// `[a-zA-Z_][a-zA-Z0-9_]*`
    Identifier,
    /// `[0-9]+`
    Number,
    /// a double-quoted string with backslash escapes
    String,
    /// `+`
    Plus,
    /// `-`
    Minus,
    /// `=`
    Equal,
    /// `#` up to the end of the line; never emitted
    Comment,
    /// `##` up to the end of the line
    Docs,
    /// `return`
    Return,
    /// `print`
    Print,
    /// `/` followed by path characters
    Path,
    /// `(`
    LeftParent,
    /// `)`
    RightParent,
    /// `{`
    LeftBrace,
    /// `}`
    RightBrace,
    /// spaces, tabs, newlines and form feeds; never emitted
    Whitespace,
}


/// A token with its text and the position of its first byte.
#[derive(Debug)]
pub struct TokenKind {
    pub token: Token,
    pub value: String,
    pub line: usize,
    pub column: usize,
}

/// Text that no rule matches, with the position of its first byte.
#[derive(Debug)]
pub struct LexError {
    pub value: String,
    pub line: usize,
    pub column: usize,
}

/// Line and column (both from 1) of byte `k` of `b`: a `\n` byte starts a
/// new line, every other byte moves one column on. Offsets past the end give
/// the position just after the last byte.
pub open spec fn line_col(b: Seq<u8>, k: int) -> (int, int)
    decreases k,
{
    if k <= 0 {
        (1, 1)
    } else {
        let (l, c) = line_col(b, k - 1);
        if k - 1 >= b.len() {
            (l, c)
        } else if b[k - 1] == 0x0a {
            (l + 1, 1)
        } else {
            (l, c + 1)
        }
    }
}

pub proof fn lemma_line_col_bounds(b: Seq<u8>, k: int)
    requires
        0 <= k,
    ensures
        1 <= line_col(b, k).0,
        1 <= line_col(b, k).1,
        line_col(b, k).0 + line_col(b, k).1 <= k + 2,
    decreases k,
{
    if k > 0 {
        lemma_line_col_bounds(b, k - 1);
    }
}

/// The line of byte `k` is one more than the number of newlines before it;
/// its column is one more than the number of bytes since the last newline
/// before it, or since the start when there is none.
pub proof fn law_line_col_counts(b: Seq<u8>, k: int)
    requires
        0 <= k <= b.len(),
    ensures
        line_col(b, k).0 == 1 + b.subrange(0, k).filter(|x: u8| x == 0x0a).len(),
        1 <= line_col(b, k).1 <= k + 1,
        forall|j: int| k - (line_col(b, k).1 - 1) <= j < k ==> #[trigger] b[j] != 0x0a,
        line_col(b, k).1 - 1 == k || b[k - line_col(b, k).1] == 0x0a,
    decreases k,
{
    reveal(Seq::filter);
    if k > 0 {
        law_line_col_counts(b, k - 1);
        let sub = b.subrange(0, k);
        assert(sub.drop_last() =~= b.subrange(0, k - 1));
        assert(sub.last() == b[k - 1]);
        let pred = |x: u8| x == 0x0a;
        assert(sub.filter(pred) == if pred(sub.last()) {
            sub.drop_last().filter(pred).push(sub.last())
        } else {
            sub.drop_last().filter(pred)
        });
    } else {
        assert(b.subrange(0, 0).len() == 0);
    }
}

/// `a` comes strictly before `b`: an earlier line, or the same line and an
/// earlier column.
pub open spec fn position_before(a: (int, int), b: (int, int)) -> bool {
    a.0 < b.0 || (a.0 == b.0 && a.1 < b.1)
}

pub proof fn lemma_line_col_increasing(b: Seq<u8>, k1: int, k2: int)
    requires
        0 <= k1 < k2 <= b.len(),
    ensures
        position_before(line_col(b, k1), line_col(b, k2)),
    decreases k2 - k1,
{
    if k1 + 1 < k2 {
        lemma_line_col_increasing(b, k1, k2 - 1);
    }
}

/// Tokens come out in source order: the line and column of every token
/// are strictly before those of every later token.
pub proof fn law_token_positions_increase(b: Seq<u8>)
    ensures
        forall|i: int, j: int|
            0 <= i < j < token_spans(Dialect::Full, b, 0).len() ==> position_before(
                line_col(b, (#[trigger] token_spans(Dialect::Full, b, 0)[i]).1),
                line_col(b, (#[trigger] token_spans(Dialect::Full, b, 0)[j]).1),
            ),
{
    let ts = token_spans(Dialect::Full, b, 0);
    law_tokens_in_order(Dialect::Full, b, 0);
    assert forall|i: int, j: int| 0 <= i < j < ts.len() implies position_before(
        line_col(b, (#[trigger] ts[i]).1),
        line_col(b, (#[trigger] ts[j]).1),
    ) by {
        lemma_line_col_increasing(b, ts[i].1, ts[j].1);
    }
}

/// Lexing errors come in source order: the line and column of every error
/// are strictly before those of every later error.
pub proof fn law_error_positions_increase(b: Seq<u8>)
    ensures
        forall|i: int, j: int|
            0 <= i < j < error_spans(Dialect::Full, b, 0).len() ==> position_before(
                line_col(b, (#[trigger] error_spans(Dialect::Full, b, 0)[i]).0),
                line_col(b, (#[trigger] error_spans(Dialect::Full, b, 0)[j]).0),
            ),
{
    let es = error_spans(Dialect::Full, b, 0);
    law_errors_in_order(Dialect::Full, b, 0);
    assert forall|i: int, j: int| 0 <= i < j < es.len() implies position_before(
        line_col(b, (#[trigger] es[i]).0),
        line_col(b, (#[trigger] es[j]).0),
    ) by {
        lemma_line_col_increasing(b, es[i].0, es[j].0);
    }
}

/// The bytes of a string.
pub open spec fn text_bytes(s: String) -> Seq<u8> {
    encode_utf8(s@)
}

/// `tk` is the token of `span` in `b`.
pub open spec fn token_kind_is(tk: TokenKind, b: Seq<u8>, span: (Token, int, int)) -> bool {
    &&& tk.token == span.0
    &&& text_bytes(tk.value) == b.subrange(span.1, span.2)
    &&& (tk.line as int, tk.column as int) == line_col(b, span.1)
}

/// `e` is the error of `span` in `b`.
pub open spec fn lex_error_is(e: LexError, b: Seq<u8>, span: (int, int)) -> bool {
    &&& text_bytes(e.value) == b.subrange(span.0, span.1)
    &&& (e.line as int, e.column as int) == line_col(b, span.0)
}

/// Line and column of byte `byte_index` of `input`.
pub fn line_column_at(input: &str, byte_index: usize) -> (r: (usize, usize))
    requires
        input.spec_bytes().len() <= isize::MAX,
    ensures
        (r.0 as int, r.1 as int) == line_col(input.spec_bytes(), byte_index as int),
{
    let bytes = input.as_bytes();
    let limit = if byte_index < bytes.len() {
        byte_index
    } else {
        bytes.len()
    };
    let mut line: usize = 1;
    let mut column: usize = 1;
    let mut i: usize = 0;
    while i < limit
        invariant
            i <= limit <= bytes@.len() <= isize::MAX,
            limit <= byte_index,
            limit == byte_index || limit == bytes@.len(),
            bytes@ == input.spec_bytes(),
            (line as int, column as int) == line_col(bytes@, i as int),
        decreases limit - i,
    {
        proof {
            lemma_line_col_bounds(bytes@, i as int);
        }
        if bytes[i] == 0x0a {
            line += 1;
            column = 1;
        } else {
            column += 1;
        }
        i += 1;
    }
    proof {
        lemma_line_col_past_end(bytes@, limit as int, byte_index as int);
    }
    (line, column)
}

/// Past the end of the input the position no longer moves.
pub proof fn lemma_line_col_past_end(b: Seq<u8>, k: int, m: int)
    requires
        0 <= k <= m,
        k == m || k == b.len(),
    ensures
        line_col(b, m) == line_col(b, k),
    decreases m - k,
{
    if k < m {
        lemma_line_col_past_end(b, k, m - 1);
    }
}

/// The text of bytes `start..end` of `input`.
pub(crate) fn slice_text(input: &str, start: usize, end: usize) -> (s: String)
    requires
        start <= end <= input.spec_bytes().len(),
        at_boundary(input.spec_bytes(), start as int),
        at_boundary(input.spec_bytes(), end as int),
    ensures
        text_bytes(s) == input.spec_bytes().subrange(start as int, end as int),
{
    let ghost b = input.spec_bytes();
    proof {
        encode_utf8_valid_utf8(input@);
        lemma_at_boundary_is_char_boundary(b, start as int);
    }
    let (_, rest) = input.split_at(start);
    proof {
        let rb = rest.spec_bytes();
        encode_utf8_valid_utf8(rest@);
        assert(rb.len() == b.len() - start);
        if end < b.len() {
            assert(rb[end - start] == b[end as int]);
        }
        lemma_at_boundary_is_char_boundary(rb, end - start);
    }
    let (mid, _) = rest.split_at(end - start);
    let s = mid.to_owned();
    proof {
        assert(mid.spec_bytes() =~= b.subrange(start as int, end as int));
    }
    s
}

/// Splits `input` into tokens and errors. Whitespace and `#` comments are
/// dropped; each token and error carries the line and column of its first
/// byte.
pub fn generate_tokens(input: &str) -> (r: (Vec<TokenKind>, Vec<LexError>))
    requires
        input.spec_bytes().len() <= isize::MAX,
    ensures
        r.0.len() == token_spans(Dialect::Full, input.spec_bytes(), 0).len(),
        forall|i: int|
            0 <= i < r.0.len() ==> token_kind_is(
                #[trigger] r.0@[i],
                input.spec_bytes(),
                token_spans(Dialect::Full, input.spec_bytes(), 0)[i],
            ),
        r.1.len() == error_spans(Dialect::Full, input.spec_bytes(), 0).len(),
        forall|i: int|
            0 <= i < r.1.len() ==> lex_error_is(
                #[trigger] r.1@[i],
                input.spec_bytes(),
                error_spans(Dialect::Full, input.spec_bytes(), 0)[i],
            ),
        crate::derivation::lexer_spelled(r.0@),
{
    let bytes = input.as_bytes();
    let ghost b = bytes@;
    let ghost all_tokens = token_spans(Dialect::Full, b, 0);
    let ghost all_errors = error_spans(Dialect::Full, b, 0);
    proof {
        encode_utf8_valid_utf8(input@);
    }
    let mut tokens: Vec<TokenKind> = Vec::new();
    let mut errors: Vec<LexError> = Vec::new();
    let mut pos: usize = 0;
    while pos < bytes.len()
        invariant
            b == bytes@,
            b == input.spec_bytes(),
            valid_utf8(b),
            b.len() <= isize::MAX,
            pos <= b.len(),
            at_boundary(b, pos as int),
            all_tokens == token_spans(Dialect::Full, b, 0),
            all_errors == error_spans(Dialect::Full, b, 0),
            tokens.len() + token_spans(Dialect::Full, b, pos as int).len() == all_tokens.len(),
            all_tokens.subrange(tokens.len() as int, all_tokens.len() as int) == token_spans(
                Dialect::Full,
                b,
                pos as int,
            ),
            forall|i: int|
                0 <= i < tokens.len() ==> token_kind_is(#[trigger] tokens@[i], b, all_tokens[i]),
            errors.len() + error_spans(Dialect::Full, b, pos as int).len() == all_errors.len(),
            all_errors.subrange(errors.len() as int, all_errors.len() as int) == error_spans(
                Dialect::Full,
                b,
                pos as int,
            ),
            forall|i: int|
                0 <= i < errors.len() ==> lex_error_is(#[trigger] errors@[i], b, all_errors[i]),
        decreases b.len() - pos,
    {
        proof {
            lemma_next_lexeme_bounds(Dialect::Full, b, pos as int);
            lemma_lexeme_end_boundary(Dialect::Full, b, pos as int);
        }
        let (outcome, end) = next_lexeme_exec(Dialect::Full, bytes, pos);
        let ghost rest_tokens = token_spans(Dialect::Full, b, end as int);
        let ghost rest_errors = error_spans(Dialect::Full, b, end as int);
        match outcome {
            Outcome::Emit(t) => {
                let value = slice_text(input, pos, end);
                let (line, column) = line_column_at(input, pos);
                proof {
                    assert(token_spans(Dialect::Full, b, pos as int) == seq![(t, pos as int, end as int)] + rest_tokens);
                    assert(all_tokens[tokens.len() as int] == all_tokens.subrange(tokens.len() as int, all_tokens.len() as int)[0]);
                    assert(all_tokens.subrange(tokens.len() as int, all_tokens.len() as int).drop_first() =~= all_tokens.subrange(tokens.len() + 1, all_tokens.len() as int));
                    assert((seq![(t, pos as int, end as int)] + rest_tokens).drop_first() =~= rest_tokens);
                    assert(error_spans(Dialect::Full, b, pos as int) == rest_errors);
                }
                tokens.push(TokenKind { token: t, value, line, column });
            },
            Outcome::Error => {
                let value = slice_text(input, pos, end);
                let (line, column) = line_column_at(input, pos);
                proof {
                    assert(error_spans(Dialect::Full, b, pos as int) == seq![(pos as int, end as int)] + rest_errors);
                    assert(all_errors[errors.len() as int] == all_errors.subrange(errors.len() as int, all_errors.len() as int)[0]);
                    assert(all_errors.subrange(errors.len() as int, all_errors.len() as int).drop_first() =~= all_errors.subrange(errors.len() + 1, all_errors.len() as int));
                    assert((seq![(pos as int, end as int)] + rest_errors).drop_first() =~= rest_errors);
                    assert(token_spans(Dialect::Full, b, pos as int) == rest_tokens);
                }
                errors.push(LexError { value, line, column });
            },
            Outcome::Skip => {
                proof {
                    assert(token_spans(Dialect::Full, b, pos as int) == rest_tokens);
                    assert(error_spans(Dialect::Full, b, pos as int) == rest_errors);
                }
            },
        }
        pos = end;
    }
    proof {
        crate::derivation::law_lexer_output_is_spelled(b, tokens@);
    }
    (tokens, errors)
}

} // verus!
