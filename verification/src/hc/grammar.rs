//! The token streams that the route grammar derives, and the law that the
//! route parser takes every one of them without error to the routes it was
//! derived from.

use vstd::prelude::*;

use crate::cursor::{join_lines, ErrorModel, PState};
use crate::grammar::{
    lemma_docs_parse, lemma_tokens_at_concat, lemma_tokens_at_index, lemma_tokens_at_len,
    render_docs, token_texts, tokens_at,
};
use crate::hc::parser::{
    spec_body, spec_parse, spec_route, spec_routes, spec_statement, spec_statements,
    AssignmentModel, RouteModel, RouteStep, ValueModel,
};
use crate::tokens::{Token, TokenKind};

verus! {

/// The right side of an assignment.
pub enum RouteValue {
    Str(Seq<char>),
    Exec(Seq<char>),
}

/// A statement of a route body.
pub enum RouteStatement {
    Assign(Seq<char>, RouteValue),
    /// `return` and a value of the given kind and text.
    Return(Token, Seq<char>),
}

/// A route as the grammar derives it.
pub struct RouteSyntax {
    pub docs: Seq<Seq<char>>,
    pub path: Seq<char>,
    pub handler_name: Option<Seq<char>>,
    pub body: Seq<RouteStatement>,
}

pub open spec fn route_statement_wf(st: RouteStatement) -> bool {
    match st {
        RouteStatement::Assign(name, _) => name != "return"@,
        RouteStatement::Return(k, _) => k == Token::Identifier || k == Token::String || k
            == Token::Execute || k == Token::Number,
    }
}

pub open spec fn route_wf(r: RouteSyntax) -> bool {
    forall|k: int| 0 <= k < r.body.len() ==> route_statement_wf(#[trigger] r.body[k])
}

pub open spec fn routes_wf(rs: Seq<RouteSyntax>) -> bool {
    forall|k: int| 0 <= k < rs.len() ==> route_wf(#[trigger] rs[k])
}

pub open spec fn render_route_statement(st: RouteStatement) -> Seq<(Token, Seq<char>)> {
    match st {
        RouteStatement::Assign(name, v) => seq![(Token::Identifier, name), (Token::Equal, "="@)]
            + match v {
            RouteValue::Str(x) => seq![(Token::String, x)],
            RouteValue::Exec(x) => seq![(Token::Execute, x)],
        },
        RouteStatement::Return(k, x) => seq![(Token::Identifier, "return"@), (k, x)],
    }
}

pub open spec fn render_route_statements(sts: Seq<RouteStatement>) -> Seq<(Token, Seq<char>)>
    decreases sts.len(),
{
    if sts.len() == 0 {
        Seq::empty()
    } else {
        render_route_statement(sts[0]) + render_route_statements(sts.drop_first())
    }
}

pub open spec fn render_route(r: RouteSyntax) -> Seq<(Token, Seq<char>)> {
    render_docs(r.docs) + seq![(Token::Get, "GET"@), (Token::Path, r.path)] + (match r.handler_name {
        Some(h) => seq![(Token::Fn, "main"@), (Token::Identifier, h)],
        None => Seq::empty(),
    }) + seq![(Token::LeftBrace, "{"@)] + render_route_statements(r.body) + seq![
        (Token::RightBrace, "}"@),
    ]
}

pub open spec fn render_routes(rs: Seq<RouteSyntax>) -> Seq<(Token, Seq<char>)>
    decreases rs.len(),
{
    if rs.len() == 0 {
        Seq::empty()
    } else {
        render_route(rs[0]) + render_routes(rs.drop_first())
    }
}

/// The assignments of a body; return statements leave nothing.
pub open spec fn route_body_model(sts: Seq<RouteStatement>) -> Seq<AssignmentModel>
    decreases sts.len(),
{
    if sts.len() == 0 {
        Seq::empty()
    } else {
        (match sts[0] {
            RouteStatement::Assign(name, v) => seq![
                AssignmentModel {
                    name,
                    value: match v {
                        RouteValue::Str(x) => ValueModel::Str(x),
                        RouteValue::Exec(x) => ValueModel::Exec(x),
                    },
                },
            ],
            RouteStatement::Return(_, _) => Seq::empty(),
        }) + route_body_model(sts.drop_first())
    }
}

pub open spec fn route_syntax_model(r: RouteSyntax) -> RouteModel {
    RouteModel {
        docs: if r.docs.len() == 0 {
            None
        } else {
            Some(join_lines(r.docs))
        },
        path: r.path,
        body: route_body_model(r.body),
    }
}

pub proof fn lemma_route_statements_parse(t: Seq<TokenKind>, s: PState, sts: Seq<RouteStatement>)
    requires
        forall|k: int| 0 <= k < sts.len() ==> route_statement_wf(#[trigger] sts[k]),
        tokens_at(t, s.idx, render_route_statements(sts) + seq![(Token::RightBrace, "}"@)]),
    ensures
        spec_statements(t, s) == (
            route_body_model(sts),
            PState { idx: s.idx + render_route_statements(sts).len(), errs: s.errs },
        ),
    decreases sts.len(),
{
    let i = s.idx;
    let close = seq![(Token::RightBrace, "}"@)];
    lemma_tokens_at_len(t, i, render_route_statements(sts) + close);
    if sts.len() == 0 {
        lemma_tokens_at_index(t, i, render_route_statements(sts) + close, 0);
    } else {
        let r0 = render_route_statement(sts[0]);
        let rest = render_route_statements(sts.drop_first());
        assert(render_route_statements(sts) + close =~= r0 + (rest + close));
        lemma_tokens_at_concat(t, i, r0, rest + close);
        assert(route_statement_wf(sts[0]));
        lemma_tokens_at_index(t, i, r0, 0);
        lemma_tokens_at_index(t, i, r0, 1);
        if r0.len() > 2 {
            lemma_tokens_at_index(t, i, r0, 2);
        }
        let s2 = PState { idx: i + r0.len(), errs: s.errs };
        assert(spec_statement(t, s).1 == s2);
        assert forall|k: int| 0 <= k < sts.drop_first().len() implies route_statement_wf(
            #[trigger] sts.drop_first()[k],
        ) by {
            assert(sts.drop_first()[k] == sts[k + 1]);
        }
        lemma_route_statements_parse(t, s2, sts.drop_first());
        assert(crate::parser::opt_seq(spec_statement(t, s).0) + route_body_model(
            sts.drop_first(),
        ) =~= route_body_model(sts));
    }
}

#[verifier::rlimit(40)]
pub proof fn lemma_route_parses(t: Seq<TokenKind>, s: PState, r: RouteSyntax)
    requires
        route_wf(r),
        tokens_at(t, s.idx, render_route(r)),
    ensures
        spec_route(t, s) == RouteStep::Next(
            Some(route_syntax_model(r)),
            PState { idx: s.idx + render_route(r).len(), errs: s.errs },
        ),
{
    let i = s.idx;
    let e = s.errs;
    let d = render_docs(r.docs);
    let g = seq![(Token::Get, "GET"@), (Token::Path, r.path)];
    let h = match r.handler_name {
        Some(x) => seq![(Token::Fn, "main"@), (Token::Identifier, x)],
        None => Seq::<(Token, Seq<char>)>::empty(),
    };
    let o = seq![(Token::LeftBrace, "{"@)];
    let body = render_route_statements(r.body);
    let c = seq![(Token::RightBrace, "}"@)];
    assert(render_route(r) =~= d + (g + (h + (o + (body + c)))));
    lemma_tokens_at_len(t, i, render_route(r));
    lemma_tokens_at_concat(t, i, d, g + (h + (o + (body + c))));
    let i1 = i + d.len();
    lemma_tokens_at_concat(t, i1, g, h + (o + (body + c)));
    let i3 = i1 + 2;
    lemma_tokens_at_concat(t, i3, h, o + (body + c));
    let i4 = i3 + h.len();
    lemma_tokens_at_concat(t, i4, o, body + c);
    lemma_tokens_at_concat(t, i4 + 1, body, c);
    lemma_tokens_at_index(t, i1, g, 0);
    lemma_tokens_at_index(t, i1, g, 1);
    lemma_tokens_at_index(t, i4, o, 0);
    let i5 = i4 + 1 + body.len();
    lemma_tokens_at_index(t, i5, c, 0);
    if h.len() > 0 {
        lemma_tokens_at_index(t, i3, h, 0);
        lemma_tokens_at_index(t, i3, h, 1);
    }
    lemma_docs_parse(t, i, r.docs);
    assert(d.len() == r.docs.len());
    assert(forall|k: int| 0 <= k < r.body.len() ==> route_statement_wf(#[trigger] r.body[k]));
    lemma_route_statements_parse(t, PState { idx: i4 + 1, errs: e }, r.body);
    let s1 = PState { idx: i1, errs: e };
    assert(crate::cursor::take_docs(t, s) == (route_syntax_model(r).docs, s1));
    assert(spec_body(t, PState { idx: i4 + 1, errs: e }) == (
        route_body_model(r.body),
        PState { idx: i5 + 1, errs: e },
    ));
    assert(render_route(r).len() == i5 + 1 - i);
}

pub proof fn lemma_routes_parse(t: Seq<TokenKind>, s: PState, rs: Seq<RouteSyntax>)
    requires
        routes_wf(rs),
        tokens_at(t, s.idx, render_routes(rs)),
        s.idx + render_routes(rs).len() == t.len(),
    ensures
        spec_routes(t, s) == (
            rs.map_values(|r: RouteSyntax| route_syntax_model(r)),
            PState { idx: t.len() as int, errs: s.errs },
        ),
    decreases rs.len(),
{
    lemma_tokens_at_len(t, s.idx, render_routes(rs));
    if rs.len() == 0 {
        assert(rs.map_values(|r: RouteSyntax| route_syntax_model(r)) =~= Seq::empty());
    } else {
        let r0 = render_route(rs[0]);
        let rest = rs.drop_first();
        lemma_tokens_at_concat(t, s.idx, r0, render_routes(rest));
        assert(route_wf(rs[0]));
        lemma_route_parses(t, s, rs[0]);
        assert forall|k: int| 0 <= k < rest.len() implies route_wf(#[trigger] rest[k]) by {
            assert(rest[k] == rs[k + 1]);
        }
        let s1 = PState { idx: s.idx + r0.len(), errs: s.errs };
        lemma_routes_parse(t, s1, rest);
        assert(rs.map_values(|r: RouteSyntax| route_syntax_model(r)) =~= seq![
            route_syntax_model(rs[0]),
        ] + rest.map_values(|r: RouteSyntax| route_syntax_model(r)));
    }
}

/// Every token stream that the route grammar derives parses without error
/// into the routes it was derived from: docs lines joined with newlines, the
/// path, and the assignments of the body (return statements leave nothing).
pub proof fn law_derived_routes_parse(t: Seq<TokenKind>, rs: Seq<RouteSyntax>)
    requires
        routes_wf(rs),
        token_texts(t) == render_routes(rs),
    ensures
        spec_parse(t) == (
            rs.map_values(|r: RouteSyntax| route_syntax_model(r)),
            Seq::<ErrorModel>::empty(),
        ),
{
    let r = render_routes(rs);
    assert(t.len() == r.len());
    assert(tokens_at(t, 0, r)) by {
        reveal(tokens_at);
        assert forall|j: int| 0 <= j < 0 + r.len() implies (#[trigger] t[j]).token == r[j
            - 0].0 && t[j].value@ == r[j - 0].1 by {
            assert(token_texts(t)[j] == r[j]);
        }
    }
    lemma_routes_parse(t, PState { idx: 0, errs: Seq::empty() }, rs);
}

} // verus!
