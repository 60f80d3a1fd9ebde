use vstd::prelude::*;
use vstd::string::*;
use vstd::utf8::*;

use crate::lexer::{
    at_boundary, lemma_lexeme_end_boundary, lemma_next_lexeme_bounds, next_lexeme_exec, reported,
    Dialect, Outcome,
};
use crate::tokens::{slice_text, text_bytes, TokenKind};

verus! {

/// The kinds of token of the route language.
#[derive(Clone, Copy, Debug, PartialEq, Eq, Structural)]
pub enum Token {
    /// `main`
    Fn,
    /// `GET`
    Get,
    /// `$` followed by path characters
    Execute,
    /// `[a-zA-Z_][a-zA-Z0-9_]*`
    Identifier,
    /// `[0-9]+`
    Number,
    /// `+`
    Plus,
    /// `-`
    Minus,
    /// `=`
    Equal,
    /// `#` up to the end of the line; never emitted
    Comment,
    /// `##` up to the end of the line
    Docs,
    /// `/` followed by path characters
    Path,
    /// spaces, tabs, newlines and form feeds; never emitted
    Whitespace,
}

/// One reported lexeme: the token, or `Err(())` for text that no rule
/// matches, and the text itself.
#[derive(Debug)]
pub struct Scanned {
    pub token: Result<Token, ()>,
    pub slice: String,
}

/// The route-language token of a rule of the route dialect.
pub open spec fn route_token(t: crate::tokens::Token) -> Token {
    match t {
        crate::tokens::Token::Fn => Token::Fn,
        crate::tokens::Token::Get => Token::Get,
        crate::tokens::Token::Execute => Token::Execute,
        crate::tokens::Token::Number => Token::Number,
        crate::tokens::Token::Plus => Token::Plus,
        crate::tokens::Token::Minus => Token::Minus,
        crate::tokens::Token::Equal => Token::Equal,
        crate::tokens::Token::Comment => Token::Comment,
        crate::tokens::Token::Docs => Token::Docs,
        crate::tokens::Token::Path => Token::Path,
        crate::tokens::Token::Whitespace => Token::Whitespace,
        _ => Token::Identifier,
    }
}

fn route_token_exec(t: crate::tokens::Token) -> (r: Token)
    ensures
        r == route_token(t),
{
    match t {
        crate::tokens::Token::Fn => Token::Fn,
        crate::tokens::Token::Get => Token::Get,
        crate::tokens::Token::Execute => Token::Execute,
        crate::tokens::Token::Number => Token::Number,
        crate::tokens::Token::Plus => Token::Plus,
        crate::tokens::Token::Minus => Token::Minus,
        crate::tokens::Token::Equal => Token::Equal,
        crate::tokens::Token::Comment => Token::Comment,
        crate::tokens::Token::Docs => Token::Docs,
        crate::tokens::Token::Path => Token::Path,
        crate::tokens::Token::Whitespace => Token::Whitespace,
        _ => Token::Identifier,
    }
}

/// `s` is the report of lexeme `l` of `b`.
pub open spec fn scanned_is(s: Scanned, b: Seq<u8>, l: crate::lexer::Lexeme) -> bool {
    &&& match l.outcome {
        Outcome::Emit(t) => s.token == Ok::<Token, ()>(route_token(t)),
        _ => s.token is Err,
    }
    &&& text_bytes(s.slice) == b.subrange(l.start, l.end)
}

/// Splits `input` into the tokens of the route language, in order, with
/// `Err(())` for text that no rule matches; whitespace and `#` comments are
/// dropped.
pub fn generate_tokens(input: &str) -> (r: Vec<Scanned>)
    requires
        input.spec_bytes().len() <= isize::MAX,
    ensures
        r.len() == reported(Dialect::Route, input.spec_bytes(), 0).len(),
        forall|i: int|
            0 <= i < r.len() ==> scanned_is(
                #[trigger] r@[i],
                input.spec_bytes(),
                reported(Dialect::Route, input.spec_bytes(), 0)[i],
            ),
{
    let bytes = input.as_bytes();
    let ghost b = bytes@;
    let ghost all = reported(Dialect::Route, b, 0);
    proof {
        encode_utf8_valid_utf8(input@);
    }
    let mut out: Vec<Scanned> = Vec::new();
    let mut pos: usize = 0;
    while pos < bytes.len()
        invariant
            b == bytes@,
            b == input.spec_bytes(),
            valid_utf8(b),
            pos <= b.len(),
            at_boundary(b, pos as int),
            all == reported(Dialect::Route, b, 0),
            out.len() + reported(Dialect::Route, b, pos as int).len() == all.len(),
            all.subrange(out.len() as int, all.len() as int) == reported(
                Dialect::Route,
                b,
                pos as int,
            ),
            forall|i: int| 0 <= i < out.len() ==> scanned_is(#[trigger] out@[i], b, all[i]),
        decreases b.len() - pos,
    {
        proof {
            lemma_next_lexeme_bounds(Dialect::Route, b, pos as int);
            lemma_lexeme_end_boundary(Dialect::Route, b, pos as int);
        }
        let (outcome, end) = next_lexeme_exec(Dialect::Route, bytes, pos);
        let ghost l = crate::lexer::next_lexeme(Dialect::Route, b, pos as int);
        let ghost rest = reported(Dialect::Route, b, end as int);
        let token = match outcome {
            Outcome::Emit(t) => Some(Ok(route_token_exec(t))),
            Outcome::Error => Some(Err(())),
            Outcome::Skip => None,
        };
        match token {
            Some(token) => {
                let slice = slice_text(input, pos, end);
                proof {
                    assert(reported(Dialect::Route, b, pos as int) == seq![l] + rest);
                    assert(all[out.len() as int] == all.subrange(out.len() as int, all.len() as int)[0]);
                    assert(all.subrange(out.len() as int, all.len() as int).drop_first() =~= all.subrange(out.len() + 1, all.len() as int));
                    assert((seq![l] + rest).drop_first() =~= rest);
                }
                out.push(Scanned { token, slice });
            },
            None => {},
        }
        pos = end;
    }
    out
}

/// The kind that the route parser gives a token of the full language: the
/// keywords that the route language does not have (`fn`, `POST`, `PUT`,
/// `DELETE`, `PATCH`, `return`, `print`) are identifiers there.
pub open spec fn route_kind(t: crate::tokens::Token) -> crate::tokens::Token {
    match t {
        crate::tokens::Token::Function | crate::tokens::Token::Post | crate::tokens::Token::Put
        | crate::tokens::Token::Delete | crate::tokens::Token::Patch
        | crate::tokens::Token::Return | crate::tokens::Token::Print => {
            crate::tokens::Token::Identifier
        },
        _ => t,
    }
}

/// The tokens of the full language as the route parser reads them: each
/// token keeps its text and position, and takes its route kind.
pub fn route_token_kinds(tokens: &[TokenKind]) -> (r: Vec<TokenKind>)
    ensures
        r.len() == tokens.len(),
        forall|i: int|
            0 <= i < r.len() ==> {
                &&& (#[trigger] r@[i]).token == route_kind(tokens@[i].token)
                &&& r@[i].value == tokens@[i].value
                &&& r@[i].line == tokens@[i].line
                &&& r@[i].column == tokens@[i].column
            },
        crate::derivation::fixed_texts(tokens@) ==> crate::derivation::fixed_texts(r@),
{
    let mut out: Vec<TokenKind> = Vec::new();
    let mut i: usize = 0;
    while i < tokens.len()
        invariant
            i <= tokens@.len(),
            out.len() == i,
            forall|k: int|
                0 <= k < i ==> {
                    &&& (#[trigger] out@[k]).token == route_kind(tokens@[k].token)
                    &&& out@[k].value == tokens@[k].value
                    &&& out@[k].line == tokens@[k].line
                    &&& out@[k].column == tokens@[k].column
                },
        decreases tokens@.len() - i,
    {
        let tk = &tokens[i];
        let token = match tk.token {
            crate::tokens::Token::Function | crate::tokens::Token::Post
            | crate::tokens::Token::Put | crate::tokens::Token::Delete
            | crate::tokens::Token::Patch | crate::tokens::Token::Return
            | crate::tokens::Token::Print => crate::tokens::Token::Identifier,
            other => other,
        };
        out.push(TokenKind { token, value: tk.value.clone(), line: tk.line, column: tk.column });
        i += 1;
    }
    proof {
        if crate::derivation::fixed_texts(tokens@) {
            assert forall|k: int| 0 <= k < out@.len() implies (crate::derivation::fixed_text(
                (#[trigger] out@[k]).token,
            ) matches Some(w) ==> out@[k].value@ == w) by {
                assert(crate::derivation::fixed_text(tokens@[k].token) matches Some(w)
                    ==> tokens@[k].value@ == w);
            }
        }
    }
    out
}

} // verus!
