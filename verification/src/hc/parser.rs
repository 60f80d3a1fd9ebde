//! The parser of the route language.
//!
//! ```text
//! docs          = Docs
//! route         = "GET" Path route_block
//! route_block   = "main" Identifier "{" body "}" | "{" body "}"
//! body          = { assignment | return_stmt }
//! assignment    = Identifier "=" assign_value
//! assign_value  = String | Execute
//! return_stmt   = "return" return_value
//! return_value  = Identifier | String | Execute | Number
//! ```
//!
//! A return statement is checked and then dropped: routes keep only their
//! assignments.

use vstd::prelude::*;

use crate::cursor::{
    advance, at_end, consume, error_eof, error_here, errors_at_tokens, errors_model, is_at,
    lemma_cursor_moves_on, moves_on, take_docs, ErrorModel, PState, ParserState, errors_in_order,
    positions_increase,
};
pub use crate::parser::ParseError;
use crate::parser::{opt_seq, opt_text, text_is};
use crate::tokens::{Token, TokenKind};

verus! {

/// The method of a route.
#[derive(Clone, Copy, Debug, PartialEq, Eq, Structural)]
pub enum HttpMethod {
    Get,
}

/// Value kinds accepted on the right side of assignment.
#[derive(Debug)]
pub enum Value {
    String(String),
    Execute(String),
}

/// Assignment statement in a route body.
#[derive(Debug)]
pub struct Assignment {
    pub name: String,
    pub value: Value,
}

/// One route: optional docs, `GET`, its path and its assignments.
#[derive(Debug)]
pub struct Route {
    pub docs: Option<String>,
    pub method: HttpMethod,
    pub path: String,
    pub body: Vec<Assignment>,
}

/// Root of the syntax tree.
#[derive(Debug)]
pub struct Program {
    pub routes: Vec<Route>,
}

// ---------------------------------------------------------------------------
// Models
pub enum ValueModel {
    Str(Seq<char>),
    Exec(Seq<char>),
}

pub struct AssignmentModel {
    pub name: Seq<char>,
    pub value: ValueModel,
}

pub struct RouteModel {
    pub docs: Option<Seq<char>>,
    pub path: Seq<char>,
    pub body: Seq<AssignmentModel>,
}

pub open spec fn value_model(v: Value) -> ValueModel {
    match v {
        Value::String(s) => ValueModel::Str(s@),
        Value::Execute(s) => ValueModel::Exec(s@),
    }
}

pub open spec fn assignment_model(a: Assignment) -> AssignmentModel {
    AssignmentModel { name: a.name@, value: value_model(a.value) }
}

pub open spec fn assignments_model(xs: Seq<Assignment>) -> Seq<AssignmentModel> {
    xs.map_values(|a: Assignment| assignment_model(a))
}

pub open spec fn route_model(r: Route) -> RouteModel {
    RouteModel { docs: opt_text(r.docs), path: r.path@, body: assignments_model(r.body@) }
}

pub open spec fn routes_model(rs: Seq<Route>) -> Seq<RouteModel> {
    rs.map_values(|r: Route| route_model(r))
}

// ---------------------------------------------------------------------------
// The grammar
/// The current token is an identifier spelled `return`.
pub open spec fn is_return_keyword(t: Seq<TokenKind>, s: PState) -> bool {
    0 <= s.idx < t.len() && t[s.idx].token == Token::Identifier && t[s.idx].value@ == "return"@
}

/// The right side of an assignment.
pub open spec fn spec_value(t: Seq<TokenKind>, s: PState) -> (Option<ValueModel>, PState) {
    if 0 <= s.idx < t.len() {
        let tok = t[s.idx];
        if tok.token == Token::String {
            (Some(ValueModel::Str(tok.value@)), advance(t, s))
        } else if tok.token == Token::Execute {
            (Some(ValueModel::Exec(tok.value@)), advance(t, s))
        } else {
            (None, error_here(t, s, "expected string or execute value"@))
        }
    } else {
        (None, error_eof(t, s, "expected value but found end of input"@))
    }
}

/// A return statement; the cursor is at `return`. Only errors come of it.
pub open spec fn spec_return(t: Seq<TokenKind>, s: PState) -> PState {
    let s1 = advance(t, s);
    if at_end(t, s1) || is_at(t, s1, Token::RightBrace) {
        error_here(t, s1, "expected return value after 'return'"@)
    } else {
        let k = t[s1.idx].token;
        if k == Token::Identifier || k == Token::String || k == Token::Execute || k
            == Token::Number {
            advance(t, s1)
        } else {
            advance(t, error_here(t, s1, "expected value after 'return'"@))
        }
    }
}

/// One statement of a body; the cursor is at a token that is not `}`.
pub open spec fn spec_statement(t: Seq<TokenKind>, s: PState) -> (Option<AssignmentModel>, PState) {
    if is_return_keyword(t, s) {
        (None, spec_return(t, s))
    } else {
        let (ok1, s1) = consume(t, s, Token::Identifier, "expected variable name"@);
        if !ok1 {
            (None, advance(t, s1))
        } else {
            let (ok2, s2) = consume(t, s1, Token::Equal, "expected '=' after variable name"@);
            if !ok2 {
                (None, advance(t, s2))
            } else {
                let (v, s3) = spec_value(t, s2);
                match v {
                    None => (None, advance(t, s3)),
                    Some(v) => (Some(AssignmentModel { name: t[s.idx].value@, value: v }), s3),
                }
            }
        }
    }
}

pub open spec fn body_done(t: Seq<TokenKind>, s: PState) -> bool {
    at_end(t, s) || is_at(t, s, Token::RightBrace)
}

/// The assignments of a body from the cursor up to `}` or the end.
pub open spec fn spec_statements(t: Seq<TokenKind>, s: PState) -> (Seq<AssignmentModel>, PState)
    decreases t.len() - s.idx,
{
    if s.idx < 0 || body_done(t, s) {
        (Seq::empty(), s)
    } else {
        let (x, s2) = spec_statement(t, s);
        proof {
            lemma_statement_progress(t, s);
        }
        let (ys, s3) = spec_statements(t, s2);
        (opt_seq(x) + ys, s3)
    }
}

/// Skips to a safe place after an error: past the next `}`, or up to `GET`.
pub open spec fn spec_synchronize(t: Seq<TokenKind>, s: PState) -> PState
    decreases t.len() - s.idx,
{
    if s.idx < 0 || at_end(t, s) {
        s
    } else if is_at(t, s, Token::RightBrace) {
        advance(t, s)
    } else if is_at(t, s, Token::Get) {
        s
    } else {
        spec_synchronize(t, advance(t, s))
    }
}

/// A body and its closing `}`.
pub open spec fn spec_body(t: Seq<TokenKind>, s: PState) -> (Seq<AssignmentModel>, PState) {
    let (xs, s1) = spec_statements(t, s);
    let (ok, s2) = consume(t, s1, Token::RightBrace, "expected '}' to close route body"@);
    (
        xs,
        if ok {
            s2
        } else {
            spec_synchronize(t, s2)
        },
    )
}

/// What one round of the program loop does.
pub enum RouteStep {
    /// Only docs were left.
    Stop(PState),
    /// The round ended, with a route or after an error.
    Next(Option<RouteModel>, PState),
}

/// One round of the program loop: docs, `GET`, a path, then
/// `main name { body }` or `{ body }`.
pub open spec fn spec_route(t: Seq<TokenKind>, s: PState) -> RouteStep {
    let (docs, s1) = take_docs(t, s);
    if at_end(t, s1) {
        RouteStep::Stop(s1)
    } else if !is_at(t, s1, Token::Get) {
        RouteStep::Next(None, advance(t, error_here(t, s1, "expected 'GET' or docs line"@)))
    } else {
        let s2 = advance(t, s1);
        let (ok, s3) = consume(t, s2, Token::Path, "expected route path after GET"@);
        if !ok {
            RouteStep::Next(None, spec_synchronize(t, s3))
        } else {
            let path = t[s2.idx].value@;
            if is_at(t, s3, Token::Fn) {
                let s4 = advance(t, s3);
                let (ok1, s5) = consume(
                    t,
                    s4,
                    Token::Identifier,
                    "expected handler name after 'main'"@,
                );
                if !ok1 {
                    RouteStep::Next(None, spec_synchronize(t, s5))
                } else {
                    let (ok2, s6) = consume(
                        t,
                        s5,
                        Token::LeftBrace,
                        "expected '{' after handler name"@,
                    );
                    if !ok2 {
                        RouteStep::Next(None, spec_synchronize(t, s6))
                    } else {
                        let (body, s7) = spec_body(t, s6);
                        RouteStep::Next(Some(RouteModel { docs, path, body }), s7)
                    }
                }
            } else {
                let (ok1, s4) = consume(
                    t,
                    s3,
                    Token::LeftBrace,
                    "expected '{' or `main <handler> {` after route path"@,
                );
                if !ok1 {
                    RouteStep::Next(None, spec_synchronize(t, s4))
                } else {
                    let (body, s5) = spec_body(t, s4);
                    RouteStep::Next(Some(RouteModel { docs, path, body }), s5)
                }
            }
        }
    }
}

/// The routes from the cursor to the end of the tokens.
pub open spec fn spec_routes(t: Seq<TokenKind>, s: PState) -> (Seq<RouteModel>, PState)
    decreases t.len() - s.idx,
{
    if s.idx < 0 || at_end(t, s) {
        (Seq::empty(), s)
    } else {
        match spec_route(t, s) {
            RouteStep::Stop(s1) => (Seq::empty(), s1),
            RouteStep::Next(orm, s1) => {
                proof {
                    lemma_route_progress(t, s);
                }
                let (rs, s2) = spec_routes(t, s1);
                (opt_seq(orm) + rs, s2)
            },
        }
    }
}

/// The routes of a token stream and the errors collected on the way.
pub open spec fn spec_parse(t: Seq<TokenKind>) -> (Seq<RouteModel>, Seq<ErrorModel>) {
    let (rs, s) = spec_routes(t, PState { idx: 0, errs: Seq::empty() });
    (rs, s.errs)
}

// ---------------------------------------------------------------------------
// Progress
pub proof fn lemma_statement_progress(t: Seq<TokenKind>, s: PState)
    requires
        0 <= s.idx < t.len(),
    ensures
        s.idx < spec_statement(t, s).1.idx,
        moves_on(t, s, spec_statement(t, s).1),
        moves_on(t, s, spec_value(t, s).1),
{
    let m = Seq::<char>::empty();
    lemma_cursor_moves_on(t, s, Token::Identifier, "expected variable name"@);
    let s1 = advance(t, s);
    lemma_cursor_moves_on(t, s1, Token::Fn, m);
    let e1 = error_here(t, s1, "expected value after 'return'"@);
    lemma_cursor_moves_on(t, e1, Token::Fn, m);
    let (ok1, c1) = consume(t, s, Token::Identifier, "expected variable name"@);
    lemma_cursor_moves_on(t, c1, Token::Equal, "expected '=' after variable name"@);
    let (ok2, c2) = consume(t, c1, Token::Equal, "expected '=' after variable name"@);
    lemma_cursor_moves_on(t, c2, Token::Fn, m);
    let c3 = spec_value(t, c2).1;
    lemma_cursor_moves_on(t, c3, Token::Fn, m);
}

pub proof fn lemma_statements_moves_on(t: Seq<TokenKind>, s: PState)
    requires
        0 <= s.idx <= t.len(),
    ensures
        moves_on(t, s, spec_statements(t, s).1),
        body_done(t, spec_statements(t, s).1),
    decreases t.len() - s.idx,
{
    if !body_done(t, s) {
        lemma_statement_progress(t, s);
        lemma_statements_moves_on(t, spec_statement(t, s).1);
    }
}

pub proof fn lemma_synchronize_moves_on(t: Seq<TokenKind>, s: PState)
    requires
        0 <= s.idx <= t.len(),
    ensures
        moves_on(t, s, spec_synchronize(t, s)),
    decreases t.len() - s.idx,
{
    if !at_end(t, s) && !is_at(t, s, Token::RightBrace) && !is_at(t, s, Token::Get) {
        lemma_synchronize_moves_on(t, advance(t, s));
    }
}

pub proof fn lemma_body_moves_on(t: Seq<TokenKind>, s: PState)
    requires
        0 <= s.idx <= t.len(),
    ensures
        moves_on(t, s, spec_body(t, s).1),
{
    let m = "expected '}' to close route body"@;
    lemma_statements_moves_on(t, s);
    let s1 = spec_statements(t, s).1;
    lemma_cursor_moves_on(t, s1, Token::RightBrace, m);
    let s2 = consume(t, s1, Token::RightBrace, m).1;
    lemma_synchronize_moves_on(t, s2);
}

pub proof fn lemma_route_progress(t: Seq<TokenKind>, s: PState)
    requires
        0 <= s.idx < t.len(),
    ensures
        match spec_route(t, s) {
            RouteStep::Stop(s1) => moves_on(t, s, s1),
            RouteStep::Next(_, s1) => s.idx < s1.idx && moves_on(t, s, s1),
        },
{
    let m = Seq::<char>::empty();
    lemma_cursor_moves_on(t, s, Token::Fn, m);
    let s1 = take_docs(t, s).1;
    if !at_end(t, s1) {
        lemma_cursor_moves_on(t, s1, Token::Fn, m);
        let e = error_here(t, s1, "expected 'GET' or docs line"@);
        lemma_cursor_moves_on(t, e, Token::Fn, m);
        let s2 = advance(t, s1);
        let mp = "expected route path after GET"@;
        lemma_cursor_moves_on(t, s2, Token::Path, mp);
        let s3 = consume(t, s2, Token::Path, mp).1;
        lemma_synchronize_moves_on(t, s3);
        lemma_cursor_moves_on(t, s3, Token::Fn, m);
        let s4 = advance(t, s3);
        let m1 = "expected handler name after 'main'"@;
        lemma_cursor_moves_on(t, s4, Token::Identifier, m1);
        let s5 = consume(t, s4, Token::Identifier, m1).1;
        lemma_synchronize_moves_on(t, s5);
        let m2 = "expected '{' after handler name"@;
        lemma_cursor_moves_on(t, s5, Token::LeftBrace, m2);
        let s6 = consume(t, s5, Token::LeftBrace, m2).1;
        lemma_synchronize_moves_on(t, s6);
        lemma_body_moves_on(t, s6);
        let m3 = "expected '{' or `main <handler> {` after route path"@;
        lemma_cursor_moves_on(t, s3, Token::LeftBrace, m3);
        let s7 = consume(t, s3, Token::LeftBrace, m3).1;
        lemma_synchronize_moves_on(t, s7);
        lemma_body_moves_on(t, s7);
    }
}


pub proof fn lemma_routes_moves_on(t: Seq<TokenKind>, s: PState)
    requires
        0 <= s.idx <= t.len(),
    ensures
        moves_on(t, s, spec_routes(t, s).1),
    decreases t.len() - s.idx,
{
    if !at_end(t, s) {
        lemma_route_progress(t, s);
        match spec_route(t, s) {
            RouteStep::Stop(s1) => {},
            RouteStep::Next(_, s1) => {
                lemma_routes_moves_on(t, s1);
            },
        }
    }
}

/// Parsing reads the whole token stream: from any position, the cursor
/// ends at the end of the tokens.
pub proof fn law_parse_reads_every_token(t: Seq<TokenKind>, s: PState)
    requires
        0 <= s.idx <= t.len(),
    ensures
        spec_routes(t, s).1.idx == t.len(),
    decreases t.len() - s.idx,
{
    if !at_end(t, s) {
        lemma_route_progress(t, s);
        match spec_route(t, s) {
            RouteStep::Stop(s1) => {},
            RouteStep::Next(_, s1) => {
                law_parse_reads_every_token(t, s1);
            },
        }
    }
}

/// Every error that parsing reports carries the line and column of one of
/// the tokens, or line 1, column 1 when there are no tokens at all.
pub proof fn law_errors_point_at_tokens(t: Seq<TokenKind>)
    ensures
        errors_at_tokens(t, spec_parse(t).1),
{
    let s0 = PState { idx: 0, errs: Seq::empty() };
    lemma_routes_moves_on(t, s0);
}

/// When the tokens are in source order, as the lexer gives them, the
/// errors that parsing reports are in source order too.
pub proof fn law_errors_in_source_order(t: Seq<TokenKind>)
    requires
        positions_increase(t),
    ensures
        errors_in_order(spec_parse(t).1),
{
    let s0 = PState { idx: 0, errs: Seq::empty() };
    lemma_routes_moves_on(t, s0);
}

// ---------------------------------------------------------------------------
// Executable parser
pub open spec fn opt_value_model(v: Option<Value>) -> Option<ValueModel> {
    match v {
        Some(x) => Some(value_model(x)),
        None => None,
    }
}

pub open spec fn opt_assignment_model(a: Option<Assignment>) -> Option<AssignmentModel> {
    match a {
        Some(x) => Some(assignment_model(x)),
        None => None,
    }
}

pub open spec fn opt_route_model(r: Option<Route>) -> Option<RouteModel> {
    match r {
        Some(x) => Some(route_model(x)),
        None => None,
    }
}

fn is_return_keyword_exec(p: &ParserState) -> (r: bool)
    ensures
        r == is_return_keyword(p.tokens@, p.state()),
{
    match p.current() {
        Some(tok) => tok.token == Token::Identifier && text_is(tok.value.as_str(), "return"),
        None => false,
    }
}

fn parse_value(p: &mut ParserState) -> (r: Option<Value>)
    requires
        old(p).wf(),
    ensures
        final(p).wf(),
        final(p).tokens == old(p).tokens,
        opt_value_model(r) == spec_value(old(p).tokens@, old(p).state()).0,
        final(p).state() == spec_value(old(p).tokens@, old(p).state()).1,
{
    match p.current() {
        Some(tok) => {
            if tok.token == Token::String {
                let value = Value::String(tok.value.clone());
                p.advance();
                Some(value)
            } else if tok.token == Token::Execute {
                let value = Value::Execute(tok.value.clone());
                p.advance();
                Some(value)
            } else {
                p.push_error_here("expected string or execute value");
                None
            }
        },
        None => {
            p.push_error_eof("expected value but found end of input");
            None
        },
    }
}

fn parse_return_statement(p: &mut ParserState)
    requires
        old(p).wf(),
    ensures
        final(p).wf(),
        final(p).tokens == old(p).tokens,
        final(p).state() == spec_return(old(p).tokens@, old(p).state()),
{
    // Consume the `return` identifier first, then validate a return value.
    p.advance();
    if p.at_end() || p.matches(Token::RightBrace) {
        p.push_error_here("expected return value after 'return'");
        return ;
    }
    match p.current() {
        Some(tok) => {
            let k = tok.token;
            if k == Token::Identifier || k == Token::String || k == Token::Execute || k
                == Token::Number {
                p.advance();
            } else {
                p.push_error_here("expected value after 'return'");
                p.advance();
            }
        },
        None => {},
    }
}

fn parse_statement(p: &mut ParserState) -> (r: Option<Assignment>)
    requires
        old(p).wf(),
    ensures
        final(p).wf(),
        final(p).tokens == old(p).tokens,
        opt_assignment_model(r) == spec_statement(old(p).tokens@, old(p).state()).0,
        final(p).state() == spec_statement(old(p).tokens@, old(p).state()).1,
{
    if is_return_keyword_exec(p) {
        parse_return_statement(p);
        return None;
    }
    let name_tok = match p.consume(Token::Identifier, "expected variable name") {
        Some(tok) => tok,
        None => {
            p.advance();
            return None;
        },
    };
    if p.consume(Token::Equal, "expected '=' after variable name").is_none() {
        p.advance();
        return None;
    }
    match parse_value(p) {
        None => {
            p.advance();
            None
        },
        Some(value) => Some(Assignment { name: name_tok.value.clone(), value }),
    }
}

fn synchronize_route(p: &mut ParserState)
    requires
        old(p).wf(),
    ensures
        final(p).wf(),
        final(p).tokens == old(p).tokens,
        final(p).state() == spec_synchronize(old(p).tokens@, old(p).state()),
{
    let ghost t = p.tokens@;
    let ghost s0 = p.state();
    // Skip tokens until a safe boundary (`}` or next `GET`) is found.
    while !p.at_end()
        invariant
            p.wf(),
            p.tokens == old(p).tokens,
            t == p.tokens@,
            s0 == old(p).state(),
            spec_synchronize(t, s0) == spec_synchronize(t, p.state()),
        decreases t.len() - p.index,
    {
        if p.matches(Token::RightBrace) {
            p.advance();
            return ;
        }
        if p.matches(Token::Get) {
            return ;
        }
        p.advance();
    }
}

fn parse_body(p: &mut ParserState) -> (r: Vec<Assignment>)
    requires
        old(p).wf(),
    ensures
        final(p).wf(),
        final(p).tokens == old(p).tokens,
        assignments_model(r@) == spec_body(old(p).tokens@, old(p).state()).0,
        final(p).state() == spec_body(old(p).tokens@, old(p).state()).1,
{
    let ghost t = p.tokens@;
    let ghost s0 = p.state();
    let mut body: Vec<Assignment> = Vec::new();
    proof {
        assert(spec_statements(t, s0).0 =~= assignments_model(body@) + spec_statements(t, s0).0);
    }
    while !p.at_end() && !p.matches(Token::RightBrace)
        invariant
            p.wf(),
            p.tokens == old(p).tokens,
            t == p.tokens@,
            s0 == old(p).state(),
            spec_statements(t, s0).0 == assignments_model(body@) + spec_statements(
                t,
                p.state(),
            ).0,
            spec_statements(t, s0).1 == spec_statements(t, p.state()).1,
        decreases t.len() - p.index,
    {
        let ghost sb = p.state();
        let ghost before = body@;
        proof {
            lemma_statement_progress(t, sb);
        }
        let item = parse_statement(p);
        match item {
            Some(a) => {
                body.push(a);
            },
            None => {},
        }
        proof {
            assert(assignments_model(body@) =~= assignments_model(before) + opt_seq(
                opt_assignment_model(item),
            ));
            assert(spec_statements(t, s0).0 =~= assignments_model(body@) + spec_statements(
                t,
                p.state(),
            ).0);
        }
    }
    proof {
        assert(spec_statements(t, p.state()).0 =~= Seq::empty());
        assert(spec_statements(t, s0).0 =~= assignments_model(body@));
    }
    if p.consume(Token::RightBrace, "expected '}' to close route body").is_none() {
        synchronize_route(p);
    }
    body
}

/// The result of one round of the program loop.
enum Round {
    Stop,
    Next(Option<Route>),
}

fn parse_route(p: &mut ParserState) -> (r: Round)
    requires
        old(p).wf(),
    ensures
        final(p).wf(),
        final(p).tokens == old(p).tokens,
        match (r, spec_route(old(p).tokens@, old(p).state())) {
            (Round::Stop, RouteStep::Stop(s1)) => final(p).state() == s1,
            (Round::Next(o), RouteStep::Next(om, s1)) => opt_route_model(o) == om
                && final(p).state() == s1,
            _ => false,
        },
{
    let docs = p.take_docs();
    if p.at_end() {
        return Round::Stop;
    }
    if !p.matches(Token::Get) {
        p.push_error_here("expected 'GET' or docs line");
        p.advance();
        return Round::Next(None);
    }
    let method = HttpMethod::Get;
    p.advance();
    let path_tok = match p.consume(Token::Path, "expected route path after GET") {
        Some(tok) => tok,
        None => {
            synchronize_route(p);
            return Round::Next(None);
        },
    };
    let path = path_tok.value.clone();
    if p.matches(Token::Fn) {
        p.advance();
        if p.consume(Token::Identifier, "expected handler name after 'main'").is_none() {
            synchronize_route(p);
            return Round::Next(None);
        }
        if p.consume(Token::LeftBrace, "expected '{' after handler name").is_none() {
            synchronize_route(p);
            return Round::Next(None);
        }
    } else if p.consume(Token::LeftBrace, "expected '{' or `main <handler> {` after route path").is_none() {
        synchronize_route(p);
        return Round::Next(None);
    }
    let body = parse_body(p);
    Round::Next(Some(Route { docs, method, path, body }))
}

#[verifier::rlimit(30)]
fn parse_routes(p: &mut ParserState) -> (r: Program)
    requires
        old(p).wf(),
    ensures
        final(p).wf(),
        final(p).tokens == old(p).tokens,
        routes_model(r.routes@) == spec_routes(old(p).tokens@, old(p).state()).0,
        final(p).state() == spec_routes(old(p).tokens@, old(p).state()).1,
{
    let ghost t = p.tokens@;
    let ghost s0 = p.state();
    let mut routes: Vec<Route> = Vec::new();
    proof {
        assert(spec_routes(t, s0).0 =~= routes_model(routes@) + spec_routes(t, s0).0);
    }
    // Keep parsing until input is exhausted; each round targets one route.
    while !p.at_end()
        invariant
            p.wf(),
            p.tokens == old(p).tokens,
            t == p.tokens@,
            s0 == old(p).state(),
            spec_routes(t, s0).0 == routes_model(routes@) + spec_routes(t, p.state()).0,
            spec_routes(t, s0).1 == spec_routes(t, p.state()).1,
        decreases t.len() - p.index,
    {
        let ghost sb = p.state();
        let ghost before = routes@;
        proof {
            lemma_route_progress(t, sb);
        }
        match parse_route(p) {
            Round::Stop => {
                proof {
                    assert(spec_routes(t, p.state()).0 =~= Seq::empty());
                }
            },
            Round::Next(o) => {
                match o {
                    Some(r) => {
                        routes.push(r);
                    },
                    None => {},
                }
                proof {
                    assert(routes_model(routes@) =~= routes_model(before) + opt_seq(
                        opt_route_model(o),
                    ));
                }
            },
        }
        proof {
            assert(spec_routes(t, s0).0 =~= routes_model(routes@) + spec_routes(t, p.state()).0);
        }
    }
    proof {
        assert(spec_routes(t, p.state()).0 =~= Seq::empty());
        assert(spec_routes(t, s0).0 =~= routes_model(routes@));
    }
    Program { routes }
}

/// Parses a token stream into a [`Program`] of routes.
///
/// Returns `Ok(Program)` when no parse errors are collected, otherwise
/// returns all accumulated errors so callers can display multiple
/// diagnostics in one pass.
pub fn parse_program(tokens: &[TokenKind]) -> (r: Result<Program, Vec<ParseError>>)
    ensures
        match r {
            Ok(program) => spec_parse(tokens@).1.len() == 0 && routes_model(program.routes@)
                == spec_parse(tokens@).0,
            Err(errors) => spec_parse(tokens@).1.len() > 0 && errors_model(errors@) == spec_parse(
                tokens@,
            ).1,
        },
{
    let mut parser = ParserState::new(tokens);
    proof {
        assert(parser.state().errs =~= Seq::<ErrorModel>::empty());
    }
    let program = parse_routes(&mut parser);
    if parser.errors.len() == 0 {
        Ok(program)
    } else {
        Err(parser.errors)
    }
}

} // verus!
