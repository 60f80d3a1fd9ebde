//! The converse of the route grammar law: a token stream with the fixed
//! texts of its keywords and punctuation that parses without error is one
//! that the route grammar derives.

use vstd::prelude::*;

use crate::cursor::{consume, docs_from, error_here, is_at, lemma_docs_from_len, take_docs, PState};
use crate::derivation::{
    fixed_texts, lemma_fixed, lemma_tokens_at_empty, lemma_tokens_at_push,
};
use crate::grammar::{lemma_tokens_at_concat, render_docs, token_texts, tokens_at};
use crate::hc::grammar::{
    render_route, render_route_statement, render_route_statements, render_routes, route_statement_wf,
    route_wf, routes_wf, RouteStatement, RouteSyntax, RouteValue,
};
use crate::hc::parser::{
    body_done, is_return_keyword, lemma_route_progress, lemma_routes_moves_on,
    lemma_statement_progress, lemma_statements_moves_on, lemma_synchronize_moves_on, spec_body,
    spec_parse, spec_route, spec_routes, spec_statement, spec_statements, RouteStep,
};
use crate::tokens::{Token, TokenKind};

verus! {

/// A statement that parses without error is one the route grammar derives.
proof fn lemma_route_statement_derived(t: Seq<TokenKind>, s: PState) -> (st: RouteStatement)
    requires
        fixed_texts(t),
        0 <= s.idx < t.len(),
        spec_statement(t, s).1.errs.len() == s.errs.len(),
    ensures
        route_statement_wf(st),
        tokens_at(t, s.idx, render_route_statement(st)),
        spec_statement(t, s).1.idx == s.idx + render_route_statement(st).len(),
{
    let i = s.idx;
    lemma_tokens_at_empty(t, i);
    let r0 = Seq::<(Token, Seq<char>)>::empty();
    if is_return_keyword(t, s) {
        let k = t[i + 1].token;
        let x = t[i + 1].value@;
        lemma_tokens_at_push(t, i, r0, (Token::Identifier, "return"@));
        let r1 = r0.push((Token::Identifier, "return"@));
        lemma_tokens_at_push(t, i, r1, (k, x));
        let st = RouteStatement::Return(k, x);
        assert(r1.push((k, x)) =~= render_route_statement(st));
        st
    } else {
        let name = t[i].value@;
        lemma_fixed(t, i + 1, Token::Equal, "="@);
        lemma_tokens_at_push(t, i, r0, (Token::Identifier, name));
        let r1 = r0.push((Token::Identifier, name));
        lemma_tokens_at_push(t, i, r1, (Token::Equal, "="@));
        let r2 = r1.push((Token::Equal, "="@));
        let j = i + 2;
        let x = t[j].value@;
        lemma_tokens_at_push(t, i, r2, (t[j].token, x));
        let v = if t[j].token == Token::String {
            RouteValue::Str(x)
        } else {
            RouteValue::Exec(x)
        };
        let st = RouteStatement::Assign(name, v);
        assert(r2.push((t[j].token, x)) =~= render_route_statement(st));
        st
    }
}

/// The statements of a route body that parse without error, up to its `}`.
proof fn lemma_route_statements_derived(t: Seq<TokenKind>, s: PState) -> (sts: Seq<
    RouteStatement,
>)
    requires
        fixed_texts(t),
        0 <= s.idx <= t.len(),
        spec_statements(t, s).1.errs.len() == s.errs.len(),
    ensures
        forall|k: int| 0 <= k < sts.len() ==> route_statement_wf(#[trigger] sts[k]),
        tokens_at(t, s.idx, render_route_statements(sts)),
        spec_statements(t, s).1.idx == s.idx + render_route_statements(sts).len(),
    decreases t.len() - s.idx,
{
    if body_done(t, s) {
        lemma_tokens_at_empty(t, s.idx);
        Seq::empty()
    } else {
        lemma_statement_progress(t, s);
        let s2 = spec_statement(t, s).1;
        lemma_statements_moves_on(t, s2);
        let st = lemma_route_statement_derived(t, s);
        let rest = lemma_route_statements_derived(t, s2);
        let sts = seq![st] + rest;
        assert(sts[0] == st);
        assert(sts.drop_first() =~= rest);
        assert(render_route_statements(sts) == render_route_statement(st)
            + render_route_statements(rest));
        lemma_tokens_at_concat(t, s.idx, render_route_statement(st), render_route_statements(rest));
        assert forall|k: int| 0 <= k < sts.len() implies route_statement_wf(#[trigger] sts[k]) by {
            if k > 0 {
                assert(sts[k] == rest[k - 1]);
            }
        }
        sts
    }
}

/// A route body that parses without error, with its closing `}`.
proof fn lemma_route_body_derived(t: Seq<TokenKind>, s: PState) -> (sts: Seq<RouteStatement>)
    requires
        fixed_texts(t),
        0 <= s.idx <= t.len(),
        spec_body(t, s).1.errs.len() == s.errs.len(),
    ensures
        forall|k: int| 0 <= k < sts.len() ==> route_statement_wf(#[trigger] sts[k]),
        tokens_at(t, s.idx, render_route_statements(sts) + seq![(Token::RightBrace, "}"@)]),
        spec_body(t, s).1.idx == s.idx + render_route_statements(sts).len() + 1,
{
    lemma_statements_moves_on(t, s);
    let s1 = spec_statements(t, s).1;
    let m = "expected '}' to close route body"@;
    let s2 = consume(t, s1, Token::RightBrace, m).1;
    lemma_synchronize_moves_on(t, s2);
    let sts = lemma_route_statements_derived(t, s);
    let r = render_route_statements(sts);
    lemma_fixed(t, s1.idx, Token::RightBrace, "}"@);
    lemma_tokens_at_push(t, s.idx, r, (Token::RightBrace, "}"@));
    assert(r.push((Token::RightBrace, "}"@)) =~= r + seq![(Token::RightBrace, "}"@)]);
    sts
}

proof fn lemma_route_docs(t: Seq<TokenKind>, i: int)
    requires
        0 <= i <= t.len(),
    ensures
        tokens_at(t, i, render_docs(docs_from(t, i))),
        render_docs(docs_from(t, i)).len() == docs_from(t, i).len(),
{
    lemma_docs_from_len(t, i);
    reveal(tokens_at);
    let ds = docs_from(t, i);
    let r = render_docs(ds);
    assert forall|j: int| i <= j < i + r.len() implies (#[trigger] t[j]).token == r[j - i].0
        && t[j].value@ == r[j - i].1 by {
        assert(ds[j - i] == t[i + (j - i)].value@);
    }
}

/// A route that parses without error is one the route grammar derives.
proof fn lemma_route_derived(t: Seq<TokenKind>, s: PState) -> (r: RouteSyntax)
    requires
        fixed_texts(t),
        0 <= s.idx < t.len(),
        spec_route(t, s) matches RouteStep::Next(_, s1) && s1.errs.len() == s.errs.len(),
    ensures
        route_wf(r),
        tokens_at(t, s.idx, render_route(r)),
        spec_route(t, s) matches RouteStep::Next(_, s1) && s1.idx == s.idx + render_route(r).len(),
{
    let i = s.idx;
    lemma_route_docs(t, i);
    lemma_docs_from_len(t, i);
    let docs = docs_from(t, i);
    let s1 = take_docs(t, s).1;
    let i1 = s1.idx;
    lemma_fixed(t, i1, Token::Get, "GET"@);
    let s2 = crate::cursor::advance(t, s1);
    let mp = "expected route path after GET"@;
    lemma_synchronize_moves_on(t, consume(t, s2, Token::Path, mp).1);
    let i2 = i1 + 1;
    let path = t[i2].value@;
    let s3 = crate::cursor::advance(t, s2);
    let i3 = i2 + 1;
    let mut r = render_docs(docs);
    lemma_tokens_at_push(t, i, r, (Token::Get, "GET"@));
    r = r.push((Token::Get, "GET"@));
    lemma_tokens_at_push(t, i, r, (Token::Path, path));
    r = r.push((Token::Path, path));
    let handler: Option<Seq<char>>;
    let s6: PState;
    if is_at(t, s3, Token::Fn) {
        lemma_fixed(t, i3, Token::Fn, "main"@);
        let s4 = crate::cursor::advance(t, s3);
        let m1 = "expected handler name after 'main'"@;
        let s5 = consume(t, s4, Token::Identifier, m1).1;
        lemma_synchronize_moves_on(t, s5);
        let m2 = "expected '{' after handler name"@;
        let s6a = consume(t, s5, Token::LeftBrace, m2).1;
        lemma_synchronize_moves_on(t, s6a);
        lemma_fixed(t, i3 + 2, Token::LeftBrace, "{"@);
        handler = Some(t[i3 + 1].value@);
        lemma_tokens_at_push(t, i, r, (Token::Fn, "main"@));
        r = r.push((Token::Fn, "main"@));
        lemma_tokens_at_push(t, i, r, (Token::Identifier, t[i3 + 1].value@));
        r = r.push((Token::Identifier, t[i3 + 1].value@));
        s6 = s6a;
    } else {
        let m = "expected '{' or `main <handler> {` after route path"@;
        let s4 = consume(t, s3, Token::LeftBrace, m).1;
        lemma_synchronize_moves_on(t, s4);
        lemma_fixed(t, i3, Token::LeftBrace, "{"@);
        handler = None;
        s6 = s4;
    }
    lemma_tokens_at_push(t, i, r, (Token::LeftBrace, "{"@));
    r = r.push((Token::LeftBrace, "{"@));
    let sts = lemma_route_body_derived(t, s6);
    let c = render_route_statements(sts) + seq![(Token::RightBrace, "}"@)];
    lemma_tokens_at_concat(t, i, r, c);
    let route = RouteSyntax { docs, path, handler_name: handler, body: sts };
    assert(r + c =~= render_route(route));
    route
}

proof fn lemma_routes_derived(t: Seq<TokenKind>, s: PState) -> (r: (
    Seq<RouteSyntax>,
    Seq<Seq<char>>,
))
    requires
        fixed_texts(t),
        0 <= s.idx <= t.len(),
        spec_routes(t, s).1.errs.len() == s.errs.len(),
    ensures
        routes_wf(r.0),
        tokens_at(t, s.idx, render_routes(r.0) + render_docs(r.1)),
        s.idx + (render_routes(r.0) + render_docs(r.1)).len() == t.len(),
    decreases t.len() - s.idx,
{
    let none = Seq::<RouteSyntax>::empty();
    if s.idx == t.len() {
        let nd = Seq::<Seq<char>>::empty();
        lemma_tokens_at_empty(t, s.idx);
        assert(render_routes(none) + render_docs(nd) =~= Seq::empty());
        (none, nd)
    } else {
        lemma_route_progress(t, s);
        match spec_route(t, s) {
            RouteStep::Stop(s1) => {
                lemma_route_docs(t, s.idx);
                lemma_docs_from_len(t, s.idx);
                let docs = docs_from(t, s.idx);
                assert(render_routes(none) + render_docs(docs) =~= render_docs(docs));
                (none, docs)
            },
            RouteStep::Next(_, s1) => {
                lemma_routes_moves_on(t, s1);
                let rt = lemma_route_derived(t, s);
                let (rs, tail) = lemma_routes_derived(t, s1);
                let all = seq![rt] + rs;
                assert(all[0] == rt);
                assert(all.drop_first() =~= rs);
                assert(render_routes(all) == render_route(rt) + render_routes(rs));
                lemma_tokens_at_concat(t, s.idx, render_route(rt), render_routes(rs) + render_docs(tail));
                assert(render_routes(all) + render_docs(tail) =~= render_route(rt) + (
                render_routes(rs) + render_docs(tail)));
                assert forall|k: int| 0 <= k < all.len() implies route_wf(#[trigger] all[k]) by {
                    if k > 0 {
                        assert(all[k] == rs[k - 1]);
                    }
                }
                (all, tail)
            },
        }
    }
}

/// A stream whose keywords and punctuation have their fixed texts and that
/// parses without error is one that the route grammar derives: its tokens
/// are those of some well-formed routes, followed perhaps by docs lines
/// that no route follows. Any other stream, such as an assignment of a
/// number or a route without its `{`, gets an error.
pub proof fn law_error_free_streams_are_derived(t: Seq<TokenKind>)
    requires
        fixed_texts(t),
        spec_parse(t).1.len() == 0,
    ensures
        exists|rs: Seq<RouteSyntax>, tail: Seq<Seq<char>>|
            routes_wf(rs) && token_texts(t) == render_routes(rs) + render_docs(tail),
{
    let s0 = PState { idx: 0, errs: Seq::empty() };
    let (rs, tail) = lemma_routes_derived(t, s0);
    let r = render_routes(rs) + render_docs(tail);
    assert(token_texts(t) =~= r) by {
        reveal(tokens_at);
        assert forall|j: int| 0 <= j < t.len() implies token_texts(t)[j] == r[j] by {
            assert(t[j].token == r[j - 0].0);
        }
    }
}

} // verus!
