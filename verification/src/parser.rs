//! The parser of the Harpy language.
//!
//! ```text
//! docs          = Docs
//! method        = "GET" | "POST" | "PUT" | "DELETE" | "PATCH"
//! block         = method Path block_body
//! block_body    = "main" Identifier "{" body "}" | "{" body "}"
//! body          = { assignment | return_stmt | print_stmt }
//! assignment    = Identifier "=" assign_value
//! assign_value  = String | Execute | print_call
//! return_stmt   = "return" return_value
//! return_value  = Identifier | String | Execute | Number
//! print_stmt    = "print" "(" print_value ")"
//! print_value   = Identifier | String | Execute | Number
//! ```
//!
//! The parser does not stop at the first error: it records it, skips ahead
//! to a safe place and goes on, so that one pass reports every error.

use vstd::prelude::*;
use vstd::string::*;

use crate::cursor::{
    advance, at_end, consume, error_eof, error_here, errors_at_tokens, errors_model, is_at,
    lemma_cursor_moves_on, moves_on, take_docs, ErrorModel, PState, ParserState, errors_in_order,
    positions_increase,
};
use crate::tokens::{Token, TokenKind};

verus! {

/// A collected parse error with the position of the token it is about.
#[derive(Debug)]
pub struct ParseError {
    pub message: String,
    pub line: usize,
    pub column: usize,
}

/// The method of a block.
#[derive(Clone, Copy, Debug, PartialEq, Eq, Structural)]
pub enum HttpMethod {
    Get,
    Post,
    Put,
    Delete,
    Patch,
}

/// Value kinds accepted on the right side of assignment.
#[derive(Debug)]
pub enum Value {
    String(String),
    Execute(String),
    Print(Box<Value>),
}

/// Assignment statement in a block body.
#[derive(Debug)]
pub struct Assignment {
    pub name: String,
    pub value: Value,
}

/// One block: optional docs, its method and path, an optional handler name
/// and the statements of its body. A parsed block always has a method and a
/// path.
#[derive(Debug)]
pub struct Block {
    pub docs: Option<String>,
    pub method: Option<HttpMethod>,
    pub path: Option<String>,
    pub handler_name: Option<String>,
    pub body: Vec<Assignment>,
}

/// Root of the syntax tree.
#[derive(Debug)]
pub struct Program {
    pub blocks: Vec<Block>,
}

// ---------------------------------------------------------------------------
// Models

pub enum ValueModel {
    Str(Seq<char>),
    Exec(Seq<char>),
    Print(Box<ValueModel>),
}

pub struct AssignmentModel {
    pub name: Seq<char>,
    pub value: ValueModel,
}

pub struct BlockModel {
    pub docs: Option<Seq<char>>,
    pub method: Option<HttpMethod>,
    pub path: Option<Seq<char>>,
    pub handler_name: Option<Seq<char>>,
    pub body: Seq<AssignmentModel>,
}

pub open spec fn value_model(v: Value) -> ValueModel
    decreases v,
{
    match v {
        Value::String(s) => ValueModel::Str(s@),
        Value::Execute(s) => ValueModel::Exec(s@),
        Value::Print(b) => ValueModel::Print(Box::new(value_model(*b))),
    }
}

pub open spec fn opt_value_model(v: Option<Value>) -> Option<ValueModel> {
    match v {
        Some(x) => Some(value_model(x)),
        None => None,
    }
}

pub open spec fn assignment_model(a: Assignment) -> AssignmentModel {
    AssignmentModel { name: a.name@, value: value_model(a.value) }
}

pub open spec fn assignments_model(xs: Seq<Assignment>) -> Seq<AssignmentModel> {
    xs.map_values(|a: Assignment| assignment_model(a))
}

pub open spec fn opt_text(o: Option<String>) -> Option<Seq<char>> {
    match o {
        Some(s) => Some(s@),
        None => None,
    }
}

pub open spec fn block_model(b: Block) -> BlockModel {
    BlockModel {
        docs: opt_text(b.docs),
        method: b.method,
        path: opt_text(b.path),
        handler_name: opt_text(b.handler_name),
        body: assignments_model(b.body@),
    }
}

pub open spec fn blocks_model(bs: Seq<Block>) -> Seq<BlockModel> {
    bs.map_values(|b: Block| block_model(b))
}

pub open spec fn opt_seq<A>(o: Option<A>) -> Seq<A> {
    match o {
        Some(x) => seq![x],
        None => Seq::empty(),
    }
}

// ---------------------------------------------------------------------------
// The grammar, as functions from a cursor state to a result and a new state

pub open spec fn is_method_token(k: Token) -> bool {
    k is Get || k is Post || k is Put || k is Delete || k is Patch
}

pub open spec fn method_of(k: Token) -> HttpMethod {
    match k {
        Token::Post => HttpMethod::Post,
        Token::Put => HttpMethod::Put,
        Token::Delete => HttpMethod::Delete,
        Token::Patch => HttpMethod::Patch,
        _ => HttpMethod::Get,
    }
}

/// An optional method keyword.
pub open spec fn spec_http_method(t: Seq<TokenKind>, s: PState) -> (Option<HttpMethod>, PState) {
    if 0 <= s.idx < t.len() && is_method_token(t[s.idx].token) {
        (Some(method_of(t[s.idx].token)), advance(t, s))
    } else {
        (None, s)
    }
}

/// The current token is the keyword `w`: the token `k`, or an identifier
/// spelled `w`.
pub open spec fn is_keyword(t: Seq<TokenKind>, s: PState, k: Token, w: Seq<char>) -> bool {
    0 <= s.idx < t.len() && (t[s.idx].token == k || (t[s.idx].token == Token::Identifier
        && t[s.idx].value@ == w))
}

pub open spec fn is_return_keyword(t: Seq<TokenKind>, s: PState) -> bool {
    is_keyword(t, s, Token::Return, "return"@)
}

pub open spec fn is_print_keyword(t: Seq<TokenKind>, s: PState) -> bool {
    is_keyword(t, s, Token::Print, "print"@)
}

/// The token after `i` is `(`.
pub open spec fn lparen_follows(t: Seq<TokenKind>, i: int) -> bool {
    0 <= i && i + 1 < t.len() && t[i + 1].token == Token::LeftParent
}

/// The value inside `print(...)`.
pub open spec fn spec_print_value(t: Seq<TokenKind>, s: PState) -> (Option<ValueModel>, PState) {
    if at_end(t, s) || is_at(t, s, Token::RightParent) {
        (None, error_here(t, s, "expected value inside print(...)"@))
    } else {
        let tok = t[s.idx];
        if tok.token == Token::Identifier || tok.token == Token::String || tok.token
            == Token::Number {
            (Some(ValueModel::Str(tok.value@)), advance(t, s))
        } else if tok.token == Token::Execute {
            (Some(ValueModel::Exec(tok.value@)), advance(t, s))
        } else {
            (
                None,
                advance(t, error_here(t, s, "expected printable value inside print(...)"@)),
            )
        }
    }
}

/// `print ( value )` on the right side of an assignment; the cursor is at
/// `print`.
pub open spec fn spec_print_call(t: Seq<TokenKind>, s: PState) -> (Option<ValueModel>, PState) {
    let s2 = advance(t, advance(t, s));
    let (pv, s3) = spec_print_value(t, s2);
    let s4 = consume(t, s3, Token::RightParent, "expected ')' after print value"@).1;
    (
        match pv {
            Some(v) => Some(ValueModel::Print(Box::new(v))),
            None => None,
        },
        s4,
    )
}

/// The right side of an assignment.
pub open spec fn spec_value(t: Seq<TokenKind>, s: PState) -> (Option<ValueModel>, PState) {
    if 0 <= s.idx < t.len() {
        let tok = t[s.idx];
        if tok.token == Token::String {
            (Some(ValueModel::Str(tok.value@)), advance(t, s))
        } else if tok.token == Token::Execute {
            (Some(ValueModel::Exec(tok.value@)), advance(t, s))
        } else if is_print_keyword(t, s) && lparen_follows(t, s.idx) {
            spec_print_call(t, s)
        } else {
            (None, error_here(t, s, "expected string or execute value"@))
        }
    } else {
        (None, error_eof(t, s, "expected value but found end of input"@))
    }
}

/// A print statement; the cursor is at `print`.
pub open spec fn spec_print(t: Seq<TokenKind>, s: PState) -> (Option<AssignmentModel>, PState) {
    let s1 = advance(t, s);
    let (ok, s2) = consume(t, s1, Token::LeftParent, "expected '(' after 'print'"@);
    if !ok {
        (None, s2)
    } else {
        let (pv, s3) = spec_print_value(t, s2);
        let s4 = consume(t, s3, Token::RightParent, "expected ')' after print value"@).1;
        (
            match pv {
                Some(v) => Some(AssignmentModel { name: "print"@, value: v }),
                None => None,
            },
            s4,
        )
    }
}

/// A return statement; the cursor is at `return`.
pub open spec fn spec_return(t: Seq<TokenKind>, s: PState) -> (Seq<AssignmentModel>, PState) {
    let s1 = advance(t, s);
    if at_end(t, s1) || is_at(t, s1, Token::RightBrace) {
        (Seq::empty(), error_here(t, s1, "expected return value after 'return'"@))
    } else {
        let tok = t[s1.idx];
        if tok.token == Token::Execute {
            (
                seq![AssignmentModel { name: "return"@, value: ValueModel::Exec(tok.value@) }],
                advance(t, s1),
            )
        } else if tok.token == Token::Identifier || tok.token == Token::String || tok.token
            == Token::Number {
            (
                seq![AssignmentModel { name: "return"@, value: ValueModel::Str(tok.value@) }],
                advance(t, s1),
            )
        } else {
            (Seq::empty(), advance(t, error_here(t, s1, "expected value after 'return'"@)))
        }
    }
}

/// One statement of a body; the cursor is at a token that is not `}`.
pub open spec fn spec_statement(t: Seq<TokenKind>, s: PState) -> (Seq<AssignmentModel>, PState) {
    if is_return_keyword(t, s) {
        spec_return(t, s)
    } else if is_print_keyword(t, s) {
        let (o, s2) = spec_print(t, s);
        (opt_seq(o), s2)
    } else {
        let (ok1, s1) = consume(t, s, Token::Identifier, "expected variable name"@);
        if !ok1 {
            (Seq::empty(), advance(t, s1))
        } else {
            let (ok2, s2) = consume(t, s1, Token::Equal, "expected '=' after variable name"@);
            if !ok2 {
                (Seq::empty(), advance(t, s2))
            } else {
                let (v, s3) = spec_value(t, s2);
                match v {
                    None => (Seq::empty(), advance(t, s3)),
                    Some(v) => (seq![AssignmentModel { name: t[s.idx].value@, value: v }], s3),
                }
            }
        }
    }
}

/// The body stops at `}` or at the end of the tokens.
pub open spec fn body_done(t: Seq<TokenKind>, s: PState) -> bool {
    at_end(t, s) || is_at(t, s, Token::RightBrace)
}

/// The statements of a body from the cursor up to `}` or the end.
pub open spec fn spec_statements(t: Seq<TokenKind>, s: PState) -> (Seq<AssignmentModel>, PState)
    decreases t.len() - s.idx,
{
    if s.idx < 0 || body_done(t, s) {
        (Seq::empty(), s)
    } else {
        let (xs, s2) = spec_statement(t, s);
        proof {
            lemma_statement_progress(t, s);
        }
        let (ys, s3) = spec_statements(t, s2);
        (xs + ys, s3)
    }
}

/// Skips to a safe place after an error: past the next `}`, or up to docs,
/// a method keyword or a path.
pub open spec fn spec_synchronize(t: Seq<TokenKind>, s: PState) -> PState
    decreases t.len() - s.idx,
{
    if s.idx < 0 || at_end(t, s) {
        s
    } else if is_at(t, s, Token::RightBrace) {
        advance(t, s)
    } else if t[s.idx].token == Token::Docs || is_method_token(t[s.idx].token) || t[s.idx].token
        == Token::Path {
        s
    } else {
        spec_synchronize(t, advance(t, s))
    }
}

/// A body and its closing `}`.
pub open spec fn spec_body(t: Seq<TokenKind>, s: PState) -> (Seq<AssignmentModel>, PState) {
    let (xs, s1) = spec_statements(t, s);
    let (ok, s2) = consume(t, s1, Token::RightBrace, "expected '}' to close block body"@);
    (
        xs,
        if ok {
            s2
        } else {
            spec_synchronize(t, s2)
        },
    )
}

/// What one round of the program loop does.
pub enum BlockStep {
    /// Only docs were left.
    Stop(PState),
    /// The round ended, with a block or after an error.
    Next(Option<BlockModel>, PState),
}

/// One round of the program loop: docs, method, path, then
/// `main name { body }` or `{ body }`. A round that finds no method, or no
/// path after it, records the error and skips ahead without a block.
pub open spec fn spec_block(t: Seq<TokenKind>, s: PState) -> BlockStep {
    let (docs, s1) = take_docs(t, s);
    if at_end(t, s1) {
        BlockStep::Stop(s1)
    } else {
        let (method, s2) = spec_http_method(t, s1);
        if method is None {
            BlockStep::Next(
                None,
                spec_synchronize(t, advance(t, error_here(t, s1, "expected HTTP method"@))),
            )
        } else {
            let (okp, s3) = consume(t, s2, Token::Path, "expected path after HTTP method"@);
            if !okp {
                BlockStep::Next(None, spec_synchronize(t, s3))
            } else {
                let path = Some(t[s2.idx].value@);
                spec_block_body(t, s3, docs, method, path)
            }
        }
    }
}

/// The rest of a round once docs, method and path were read:
/// `main name { body }` or `{ body }`.
pub open spec fn spec_block_body(
    t: Seq<TokenKind>,
    s3: PState,
    docs: Option<Seq<char>>,
    method: Option<HttpMethod>,
    path: Option<Seq<char>>,
) -> BlockStep {
    if is_at(t, s3, Token::Fn) {
        let s4 = advance(t, s3);
        let (ok1, s5) = consume(t, s4, Token::Identifier, "expected handler name after 'main'"@);
        if !ok1 {
            BlockStep::Next(None, spec_synchronize(t, s5))
        } else {
            let (ok2, s6) = consume(t, s5, Token::LeftBrace, "expected '{' after handler name"@);
            if !ok2 {
                BlockStep::Next(None, spec_synchronize(t, s6))
            } else {
                let (body, s7) = spec_body(t, s6);
                BlockStep::Next(
                    Some(
                        BlockModel {
                            docs,
                            method,
                            path,
                            handler_name: Some(t[s4.idx].value@),
                            body,
                        },
                    ),
                    s7,
                )
            }
        }
    } else {
        let (ok, s4) = consume(
            t,
            s3,
            Token::LeftBrace,
            "expected '{' or `main <handler> {` after path"@,
        );
        if !ok {
            BlockStep::Next(None, spec_synchronize(t, s4))
        } else {
            let (body, s5) = spec_body(t, s4);
            BlockStep::Next(Some(BlockModel { docs, method, path, handler_name: None, body }), s5)
        }
    }
}

/// The blocks from the cursor to the end of the tokens.
pub open spec fn spec_blocks(t: Seq<TokenKind>, s: PState) -> (Seq<BlockModel>, PState)
    decreases t.len() - s.idx,
{
    if s.idx < 0 || at_end(t, s) {
        (Seq::empty(), s)
    } else {
        match spec_block(t, s) {
            BlockStep::Stop(s1) => (Seq::empty(), s1),
            BlockStep::Next(ob, s1) => {
                proof {
                    lemma_block_progress(t, s);
                }
                let (bs, s2) = spec_blocks(t, s1);
                (opt_seq(ob) + bs, s2)
            },
        }
    }
}

/// The blocks of a token stream and the errors collected on the way.
pub open spec fn spec_parse(t: Seq<TokenKind>) -> (Seq<BlockModel>, Seq<ErrorModel>) {
    let (bs, s) = spec_blocks(t, PState { idx: 0, errs: Seq::empty() });
    (bs, s.errs)
}

// ---------------------------------------------------------------------------
// Progress

pub proof fn lemma_value_moves_on(t: Seq<TokenKind>, s: PState)
    requires
        0 <= s.idx <= t.len(),
    ensures
        moves_on(t, s, spec_print_value(t, s).1),
        moves_on(t, s, spec_value(t, s).1),
        moves_on(t, s, spec_print(t, s).1),
        moves_on(t, s, spec_return(t, s).1),
        moves_on(t, s, spec_http_method(t, s).1),
        !at_end(t, s) ==> spec_print(t, s).1.idx > s.idx,
        !at_end(t, s) ==> spec_return(t, s).1.idx > s.idx,
{
    let m = Seq::<char>::empty();
    lemma_cursor_moves_on(t, s, Token::Fn, m);
    let a = advance(t, s);
    lemma_cursor_moves_on(t, a, Token::Fn, m);
    let a2 = advance(t, a);
    lemma_cursor_moves_on(t, a2, Token::Fn, m);
    let pv = spec_print_value(t, a2).1;
    lemma_cursor_moves_on(t, pv, Token::Fn, m);
    let e = error_here(t, s, "expected printable value inside print(...)"@);
    lemma_cursor_moves_on(t, e, Token::Fn, m);
    let c = consume(t, a, Token::LeftParent, "expected '(' after 'print'"@).1;
    lemma_cursor_moves_on(t, c, Token::Fn, m);
    let pv2 = spec_print_value(t, c).1;
    lemma_cursor_moves_on(t, pv2, Token::Fn, m);
    let e2 = error_here(t, c, "expected printable value inside print(...)"@);
    lemma_cursor_moves_on(t, e2, Token::Fn, m);
    let e3 = error_here(t, a2, "expected printable value inside print(...)"@);
    lemma_cursor_moves_on(t, e3, Token::Fn, m);
    let e4 = error_here(t, a, "expected value after 'return'"@);
    lemma_cursor_moves_on(t, e4, Token::Fn, m);
}

pub proof fn lemma_statement_progress(t: Seq<TokenKind>, s: PState)
    requires
        0 <= s.idx < t.len(),
    ensures
        s.idx < spec_statement(t, s).1.idx,
        moves_on(t, s, spec_statement(t, s).1),
{
    let m = Seq::<char>::empty();
    lemma_value_moves_on(t, s);
    lemma_cursor_moves_on(t, s, Token::Identifier, "expected variable name"@);
    let (ok1, s1) = consume(t, s, Token::Identifier, "expected variable name"@);
    lemma_cursor_moves_on(t, s1, Token::Equal, "expected '=' after variable name"@);
    let (ok2, s2) = consume(t, s1, Token::Equal, "expected '=' after variable name"@);
    lemma_cursor_moves_on(t, s2, Token::Fn, m);
    lemma_value_moves_on(t, s2);
    let s3 = spec_value(t, s2).1;
    lemma_cursor_moves_on(t, s3, Token::Fn, m);
}

pub proof fn lemma_statements_moves_on(t: Seq<TokenKind>, s: PState)
    requires
        0 <= s.idx <= t.len(),
    ensures
        moves_on(t, s, spec_statements(t, s).1),
        body_done(t, spec_statements(t, s).1),
    decreases t.len() - s.idx,
{
    if !body_done(t, s) {
        lemma_statement_progress(t, s);
        lemma_statements_moves_on(t, spec_statement(t, s).1);
    }
}

pub proof fn lemma_synchronize_moves_on(t: Seq<TokenKind>, s: PState)
    requires
        0 <= s.idx <= t.len(),
    ensures
        moves_on(t, s, spec_synchronize(t, s)),
        !at_end(t, s) && !(t[s.idx].token == Token::Docs || is_method_token(t[s.idx].token)
            || t[s.idx].token == Token::Path) ==> spec_synchronize(t, s).idx > s.idx,
    decreases t.len() - s.idx,
{
    if !at_end(t, s) && !is_at(t, s, Token::RightBrace) && !(t[s.idx].token == Token::Docs
        || is_method_token(t[s.idx].token) || t[s.idx].token == Token::Path) {
        lemma_synchronize_moves_on(t, advance(t, s));
    }
}

pub proof fn lemma_body_moves_on(t: Seq<TokenKind>, s: PState)
    requires
        0 <= s.idx <= t.len(),
    ensures
        moves_on(t, s, spec_body(t, s).1),
{
    let m = "expected '}' to close block body"@;
    lemma_statements_moves_on(t, s);
    let s1 = spec_statements(t, s).1;
    lemma_cursor_moves_on(t, s1, Token::RightBrace, m);
    let s2 = consume(t, s1, Token::RightBrace, m).1;
    lemma_synchronize_moves_on(t, s2);
}

pub proof fn lemma_block_body_progress(
    t: Seq<TokenKind>,
    s3: PState,
    docs: Option<Seq<char>>,
    method: Option<HttpMethod>,
    path: Option<Seq<char>>,
)
    requires
        0 <= s3.idx <= t.len(),
    ensures
        match spec_block_body(t, s3, docs, method, path) {
            BlockStep::Stop(_) => false,
            BlockStep::Next(_, s1) => moves_on(t, s3, s1),
        },
{
    let m = Seq::<char>::empty();
    lemma_cursor_moves_on(t, s3, Token::Fn, m);
    let s4 = advance(t, s3);
    let m1 = "expected handler name after 'main'"@;
    lemma_cursor_moves_on(t, s4, Token::Identifier, m1);
    let s5 = consume(t, s4, Token::Identifier, m1).1;
    lemma_synchronize_moves_on(t, s5);
    let m2 = "expected '{' after handler name"@;
    lemma_cursor_moves_on(t, s5, Token::LeftBrace, m2);
    let s6 = consume(t, s5, Token::LeftBrace, m2).1;
    lemma_synchronize_moves_on(t, s6);
    lemma_body_moves_on(t, s6);
    let m3 = "expected '{' or `main <handler> {` after path"@;
    lemma_cursor_moves_on(t, s3, Token::LeftBrace, m3);
    let s7 = consume(t, s3, Token::LeftBrace, m3).1;
    lemma_synchronize_moves_on(t, s7);
    lemma_body_moves_on(t, s7);
}

pub proof fn lemma_block_progress(t: Seq<TokenKind>, s: PState)
    requires
        0 <= s.idx < t.len(),
    ensures
        match spec_block(t, s) {
            BlockStep::Stop(s1) => moves_on(t, s, s1),
            BlockStep::Next(_, s1) => s.idx < s1.idx && moves_on(t, s, s1),
        },
{
    let m = Seq::<char>::empty();
    lemma_cursor_moves_on(t, s, Token::Fn, m);
    crate::cursor::lemma_docs_from_len(t, s.idx);
    let (docs, s1) = take_docs(t, s);
    if !at_end(t, s1) {
        lemma_value_moves_on(t, s1);
        let (method, s2) = spec_http_method(t, s1);
        let me = "expected HTTP method"@;
        lemma_cursor_moves_on(t, s1, Token::Fn, me);
        let e1 = error_here(t, s1, me);
        lemma_cursor_moves_on(t, e1, Token::Fn, m);
        lemma_synchronize_moves_on(t, advance(t, e1));
        let mp = "expected path after HTTP method"@;
        lemma_cursor_moves_on(t, s2, Token::Path, mp);
        let s3 = consume(t, s2, Token::Path, mp).1;
        lemma_synchronize_moves_on(t, s3);
        if method is Some && is_at(t, s2, Token::Path) {
            lemma_block_body_progress(t, s3, docs, method, Some(t[s2.idx].value@));
        }
    }
}

pub proof fn lemma_blocks_moves_on(t: Seq<TokenKind>, s: PState)
    requires
        0 <= s.idx <= t.len(),
    ensures
        moves_on(t, s, spec_blocks(t, s).1),
    decreases t.len() - s.idx,
{
    if !at_end(t, s) {
        lemma_block_progress(t, s);
        match spec_block(t, s) {
            BlockStep::Stop(s1) => {},
            BlockStep::Next(_, s1) => {
                lemma_blocks_moves_on(t, s1);
            },
        }
    }
}


/// Parsing reads the whole token stream: from any position, the cursor
/// ends at the end of the tokens.
pub proof fn law_parse_reads_every_token(t: Seq<TokenKind>, s: PState)
    requires
        0 <= s.idx <= t.len(),
    ensures
        spec_blocks(t, s).1.idx == t.len(),
    decreases t.len() - s.idx,
{
    if !at_end(t, s) {
        lemma_block_progress(t, s);
        match spec_block(t, s) {
            BlockStep::Stop(s1) => {},
            BlockStep::Next(_, s1) => {
                law_parse_reads_every_token(t, s1);
            },
        }
    }
}

/// Every error that parsing reports carries the line and column of one of
/// the tokens, or line 1, column 1 when there are no tokens at all.
pub proof fn law_errors_point_at_tokens(t: Seq<TokenKind>)
    ensures
        errors_at_tokens(t, spec_parse(t).1),
{
    let s0 = PState { idx: 0, errs: Seq::empty() };
    lemma_blocks_moves_on(t, s0);
}

/// When the tokens are in source order, as the lexer gives them, the
/// errors that parsing reports are in source order too.
pub proof fn law_errors_in_source_order(t: Seq<TokenKind>)
    requires
        positions_increase(t),
    ensures
        errors_in_order(spec_parse(t).1),
{
    let s0 = PState { idx: 0, errs: Seq::empty() };
    lemma_blocks_moves_on(t, s0);
}

// ---------------------------------------------------------------------------
// Executable parser

/// Whether two strings hold the same characters.
pub fn text_is(s: &str, w: &str) -> (r: bool)
    ensures
        r == (s@ == w@),
{
    let n = s.unicode_len();
    if n != w.unicode_len() {
        return false;
    }
    let mut i: usize = 0;
    while i < n
        invariant
            i <= n,
            n == s@.len(),
            n == w@.len(),
            forall|j: int| 0 <= j < i ==> s@[j] == w@[j],
        decreases n - i,
    {
        if s.get_char(i) != w.get_char(i) {
            return false;
        }
        i += 1;
    }
    assert(s@ =~= w@);
    true
}

pub open spec fn opt_assignment_model(a: Option<Assignment>) -> Option<AssignmentModel> {
    match a {
        Some(x) => Some(assignment_model(x)),
        None => None,
    }
}

pub open spec fn opt_block_model(b: Option<Block>) -> Option<BlockModel> {
    match b {
        Some(x) => Some(block_model(x)),
        None => None,
    }
}

fn parse_http_method(p: &mut ParserState) -> (r: Option<HttpMethod>)
    requires
        old(p).wf(),
    ensures
        final(p).wf(),
        final(p).tokens == old(p).tokens,
        r == spec_http_method(old(p).tokens@, old(p).state()).0,
        final(p).state() == spec_http_method(old(p).tokens@, old(p).state()).1,
{
    if p.matches(Token::Get) {
        p.advance();
        return Some(HttpMethod::Get);
    }
    if p.matches(Token::Post) {
        p.advance();
        return Some(HttpMethod::Post);
    }
    if p.matches(Token::Put) {
        p.advance();
        return Some(HttpMethod::Put);
    }
    if p.matches(Token::Delete) {
        p.advance();
        return Some(HttpMethod::Delete);
    }
    if p.matches(Token::Patch) {
        p.advance();
        return Some(HttpMethod::Patch);
    }
    None
}

fn is_return_keyword_exec(p: &ParserState) -> (r: bool)
    ensures
        r == is_return_keyword(p.tokens@, p.state()),
{
    match p.current() {
        Some(tok) => tok.token == Token::Return || (tok.token == Token::Identifier && text_is(
            tok.value.as_str(),
            "return",
        )),
        None => false,
    }
}

fn is_print_keyword_exec(p: &ParserState) -> (r: bool)
    ensures
        r == is_print_keyword(p.tokens@, p.state()),
{
    match p.current() {
        Some(tok) => tok.token == Token::Print || (tok.token == Token::Identifier && text_is(
            tok.value.as_str(),
            "print",
        )),
        None => false,
    }
}

fn parse_print_value(p: &mut ParserState) -> (r: Option<Value>)
    requires
        old(p).wf(),
    ensures
        final(p).wf(),
        final(p).tokens == old(p).tokens,
        opt_value_model(r) == spec_print_value(old(p).tokens@, old(p).state()).0,
        final(p).state() == spec_print_value(old(p).tokens@, old(p).state()).1,
{
    if p.at_end() || p.matches(Token::RightParent) {
        p.push_error_here("expected value inside print(...)");
        return None;
    }
    match p.current() {
        Some(tok) => {
            if tok.token == Token::Identifier || tok.token == Token::String || tok.token
                == Token::Number {
                let value = Value::String(tok.value.clone());
                p.advance();
                Some(value)
            } else if tok.token == Token::Execute {
                let value = Value::Execute(tok.value.clone());
                p.advance();
                Some(value)
            } else {
                p.push_error_here("expected printable value inside print(...)");
                p.advance();
                None
            }
        },
        None => None,
    }
}

fn parse_value(p: &mut ParserState) -> (r: Option<Value>)
    requires
        old(p).wf(),
    ensures
        final(p).wf(),
        final(p).tokens == old(p).tokens,
        opt_value_model(r) == spec_value(old(p).tokens@, old(p).state()).0,
        final(p).state() == spec_value(old(p).tokens@, old(p).state()).1,
{
    match p.current() {
        Some(tok) => {
            if tok.token == Token::String {
                let value = Value::String(tok.value.clone());
                p.advance();
                Some(value)
            } else if tok.token == Token::Execute {
                let value = Value::Execute(tok.value.clone());
                p.advance();
                Some(value)
            } else if is_print_keyword_exec(p) && p.tokens.len() - p.index > 1 && p.tokens[p.index
                + 1].token == Token::LeftParent {
                p.advance();
                p.advance();
                let print_value = parse_print_value(p);
                let _ = p.consume(Token::RightParent, "expected ')' after print value");
                match print_value {
                    Some(v) => Some(Value::Print(Box::new(v))),
                    None => None,
                }
            } else {
                p.push_error_here("expected string or execute value");
                None
            }
        },
        None => {
            p.push_error_eof("expected value but found end of input");
            None
        },
    }
}

fn parse_print(p: &mut ParserState) -> (r: Option<Assignment>)
    requires
        old(p).wf(),
    ensures
        final(p).wf(),
        final(p).tokens == old(p).tokens,
        opt_assignment_model(r) == spec_print(old(p).tokens@, old(p).state()).0,
        final(p).state() == spec_print(old(p).tokens@, old(p).state()).1,
{
    p.advance();
    if p.consume(Token::LeftParent, "expected '(' after 'print'").is_none() {
        return None;
    }
    let print_value = parse_print_value(p);
    let _ = p.consume(Token::RightParent, "expected ')' after print value");
    match print_value {
        Some(value) => Some(Assignment { name: "print".to_owned(), value }),
        None => None,
    }
}

fn parse_return_statement(p: &mut ParserState) -> (r: Vec<Assignment>)
    requires
        old(p).wf(),
    ensures
        final(p).wf(),
        final(p).tokens == old(p).tokens,
        assignments_model(r@) == spec_return(old(p).tokens@, old(p).state()).0,
        final(p).state() == spec_return(old(p).tokens@, old(p).state()).1,
{
    let mut body: Vec<Assignment> = Vec::new();
    p.advance();
    if p.at_end() || p.matches(Token::RightBrace) {
        p.push_error_here("expected return value after 'return'");
        proof {
            assert(assignments_model(body@) =~= Seq::empty());
        }
        return body;
    }
    match p.current() {
        Some(tok) => {
            let token_value = tok.value.clone();
            if tok.token == Token::Execute {
                p.advance();
                body.push(
                    Assignment { name: "return".to_owned(), value: Value::Execute(token_value) },
                );
            } else if tok.token == Token::Identifier || tok.token == Token::String || tok.token
                == Token::Number {
                p.advance();
                body.push(
                    Assignment { name: "return".to_owned(), value: Value::String(token_value) },
                );
            } else {
                p.push_error_here("expected value after 'return'");
                p.advance();
            }
        },
        None => {},
    }
    proof {
        assert(assignments_model(body@) =~= spec_return(old(p).tokens@, old(p).state()).0);
    }
    body
}

fn parse_statement(p: &mut ParserState) -> (r: Vec<Assignment>)
    requires
        old(p).wf(),
    ensures
        final(p).wf(),
        final(p).tokens == old(p).tokens,
        assignments_model(r@) == spec_statement(old(p).tokens@, old(p).state()).0,
        final(p).state() == spec_statement(old(p).tokens@, old(p).state()).1,
{
    if is_return_keyword_exec(p) {
        return parse_return_statement(p);
    }
    if is_print_keyword_exec(p) {
        let mut out: Vec<Assignment> = Vec::new();
        match parse_print(p) {
            Some(x) => out.push(x),
            None => {},
        }
        proof {
            assert(assignments_model(out@) =~= opt_seq(
                spec_print(old(p).tokens@, old(p).state()).0,
            ));
        }
        return out;
    }
    let name_tok = match p.consume(Token::Identifier, "expected variable name") {
        Some(tok) => tok,
        None => {
            p.advance();
            let out: Vec<Assignment> = Vec::new();
            proof {
                assert(assignments_model(out@) =~= Seq::empty());
            }
            return out;
        },
    };
    if p.consume(Token::Equal, "expected '=' after variable name").is_none() {
        p.advance();
        let out: Vec<Assignment> = Vec::new();
        proof {
            assert(assignments_model(out@) =~= Seq::empty());
        }
        return out;
    }
    let mut out: Vec<Assignment> = Vec::new();
    match parse_value(p) {
        None => {
            p.advance();
        },
        Some(value) => {
            out.push(Assignment { name: name_tok.value.clone(), value });
        },
    }
    proof {
        assert(assignments_model(out@) =~= spec_statement(old(p).tokens@, old(p).state()).0);
    }
    out
}

fn synchronize_block(p: &mut ParserState)
    requires
        old(p).wf(),
    ensures
        final(p).wf(),
        final(p).tokens == old(p).tokens,
        final(p).state() == spec_synchronize(old(p).tokens@, old(p).state()),
{
    let ghost t = p.tokens@;
    let ghost s0 = p.state();
    while !p.at_end()
        invariant
            p.wf(),
            p.tokens == old(p).tokens,
            t == p.tokens@,
            s0 == old(p).state(),
            spec_synchronize(t, s0) == spec_synchronize(t, p.state()),
        decreases t.len() - p.index,
    {
        if p.matches(Token::RightBrace) {
            p.advance();
            return ;
        }
        if p.matches(Token::Docs) {
            return ;
        }
        if p.matches(Token::Get) || p.matches(Token::Post) || p.matches(Token::Put) || p.matches(
            Token::Delete,
        ) || p.matches(Token::Patch) {
            return ;
        }
        if p.matches(Token::Path) {
            return ;
        }
        p.advance();
    }
}

fn parse_body(p: &mut ParserState) -> (r: Vec<Assignment>)
    requires
        old(p).wf(),
    ensures
        final(p).wf(),
        final(p).tokens == old(p).tokens,
        assignments_model(r@) == spec_body(old(p).tokens@, old(p).state()).0,
        final(p).state() == spec_body(old(p).tokens@, old(p).state()).1,
{
    let ghost t = p.tokens@;
    let ghost s0 = p.state();
    let mut body: Vec<Assignment> = Vec::new();
    proof {
        assert(assignments_model(body@) =~= Seq::empty());
        assert(spec_statements(t, s0).0 =~= assignments_model(body@) + spec_statements(t, s0).0);
    }
    while !p.at_end() && !p.matches(Token::RightBrace)
        invariant
            p.wf(),
            p.tokens == old(p).tokens,
            t == p.tokens@,
            s0 == old(p).state(),
            spec_statements(t, s0).0 == assignments_model(body@) + spec_statements(
                t,
                p.state(),
            ).0,
            spec_statements(t, s0).1 == spec_statements(t, p.state()).1,
        decreases t.len() - p.index,
    {
        let ghost sb = p.state();
        let ghost before = body@;
        proof {
            lemma_statement_progress(t, sb);
        }
        let mut items = parse_statement(p);
        let ghost got = items@;
        body.append(&mut items);
        proof {
            assert(assignments_model(body@) =~= assignments_model(before) + assignments_model(
                got,
            ));
            assert(spec_statements(t, sb).0 == spec_statement(t, sb).0 + spec_statements(
                t,
                p.state(),
            ).0);
            assert(spec_statements(t, s0).0 =~= assignments_model(body@) + spec_statements(
                t,
                p.state(),
            ).0);
        }
    }
    proof {
        assert(spec_statements(t, p.state()).0 =~= Seq::empty());
        assert(spec_statements(t, s0).0 =~= assignments_model(body@));
    }
    if p.consume(Token::RightBrace, "expected '}' to close block body").is_none() {
        synchronize_block(p);
    }
    body
}

/// The result of one round of the program loop.
enum Round {
    Stop,
    Next(Option<Block>),
}

fn parse_block(p: &mut ParserState) -> (r: Round)
    requires
        old(p).wf(),
    ensures
        final(p).wf(),
        final(p).tokens == old(p).tokens,
        match (r, spec_block(old(p).tokens@, old(p).state())) {
            (Round::Stop, BlockStep::Stop(s1)) => final(p).state() == s1,
            (Round::Next(ob), BlockStep::Next(om, s1)) => opt_block_model(ob) == om
                && final(p).state() == s1,
            _ => false,
        },
{
    let docs = p.take_docs();
    if p.at_end() {
        return Round::Stop;
    }
    let method = match parse_http_method(p) {
        Some(m) => m,
        None => {
            p.push_error_here("expected HTTP method");
            p.advance();
            synchronize_block(p);
            return Round::Next(None);
        },
    };
    let path = match p.consume(Token::Path, "expected path after HTTP method") {
        Some(tok) => tok.value.clone(),
        None => {
            synchronize_block(p);
            return Round::Next(None);
        },
    };
    let mut handler_name: Option<String> = None;
    if p.matches(Token::Fn) {
        p.advance();
        let name_tok = match p.consume(Token::Identifier, "expected handler name after 'main'") {
            Some(tok) => tok,
            None => {
                synchronize_block(p);
                return Round::Next(None);
            },
        };
        handler_name = Some(name_tok.value.clone());
        if p.consume(Token::LeftBrace, "expected '{' after handler name").is_none() {
            synchronize_block(p);
            return Round::Next(None);
        }
    } else if p.consume(Token::LeftBrace, "expected '{' or `main <handler> {` after path").is_none() {
        synchronize_block(p);
        return Round::Next(None);
    }
    let body = parse_body(p);
    Round::Next(Some(Block { docs, method: Some(method), path: Some(path), handler_name, body }))
}

#[verifier::rlimit(30)]
fn parse_blocks(p: &mut ParserState) -> (r: Program)
    requires
        old(p).wf(),
    ensures
        final(p).wf(),
        final(p).tokens == old(p).tokens,
        blocks_model(r.blocks@) == spec_blocks(old(p).tokens@, old(p).state()).0,
        final(p).state() == spec_blocks(old(p).tokens@, old(p).state()).1,
{
    let ghost t = p.tokens@;
    let ghost s0 = p.state();
    let mut blocks: Vec<Block> = Vec::new();
    proof {
        assert(spec_blocks(t, s0).0 =~= blocks_model(blocks@) + spec_blocks(t, s0).0);
    }
    // Keep parsing until input is exhausted; each round targets one block.
    while !p.at_end()
        invariant
            p.wf(),
            p.tokens == old(p).tokens,
            t == p.tokens@,
            s0 == old(p).state(),
            spec_blocks(t, s0).0 == blocks_model(blocks@) + spec_blocks(t, p.state()).0,
            spec_blocks(t, s0).1 == spec_blocks(t, p.state()).1,
        decreases t.len() - p.index,
    {
        let ghost sb = p.state();
        let ghost before = blocks@;
        proof {
            lemma_block_progress(t, sb);
        }
        match parse_block(p) {
            Round::Stop => {
                proof {
                    assert(spec_blocks(t, p.state()).0 =~= Seq::empty());
                }
            },
            Round::Next(ob) => {
                match ob {
                    Some(b) => {
                        blocks.push(b);
                    },
                    None => {},
                }
                proof {
                    assert(blocks_model(blocks@) =~= blocks_model(before) + opt_seq(
                        opt_block_model(ob),
                    ));
                }
            },
        }
        proof {
            assert(spec_blocks(t, s0).0 =~= blocks_model(blocks@) + spec_blocks(t, p.state()).0);
        }
    }
    proof {
        assert(spec_blocks(t, p.state()).0 =~= Seq::empty());
        assert(spec_blocks(t, s0).0 =~= blocks_model(blocks@));
    }
    Program { blocks }
}

/// Parses a token stream into a [`Program`].
///
/// Returns `Ok(Program)` when no parse errors are collected, otherwise
/// returns all accumulated errors so callers can display multiple
/// diagnostics in one pass.
pub fn parse_program(tokens: &[TokenKind]) -> (r: Result<Program, Vec<ParseError>>)
    ensures
        match r {
            Ok(program) => spec_parse(tokens@).1.len() == 0 && blocks_model(program.blocks@)
                == spec_parse(tokens@).0,
            Err(errors) => spec_parse(tokens@).1.len() > 0 && errors_model(errors@) == spec_parse(
                tokens@,
            ).1,
        },
{
    let mut parser = ParserState::new(tokens);
    proof {
        assert(parser.state().errs =~= Seq::<ErrorModel>::empty());
    }
    let program = parse_blocks(&mut parser);
    if parser.errors.len() == 0 {
        Ok(program)
    } else {
        Err(parser.errors)
    }
}

} // verus!
