//! The token streams that the grammar of the Harpy language derives, and
//! the law that the parser takes every one of them without error to the
//! blocks it was derived from.

use vstd::prelude::*;

use crate::cursor::{docs_from, join_lines, PState};
use crate::parser::{
    spec_blocks, spec_parse, spec_statements, AssignmentModel, BlockModel, HttpMethod, ValueModel,
};
use crate::tokens::{Token, TokenKind};

verus! {

/// A print value: an identifier, string, number or execute token and its
/// text.
pub struct PrintArg {
    pub kind: Token,
    pub text: Seq<char>,
}

/// The right side of an assignment.
pub enum ValueSyntax {
    Str(Seq<char>),
    Exec(Seq<char>),
    PrintCall(PrintArg),
}

/// A statement of a block body.
pub enum StatementSyntax {
    Assign(Seq<char>, ValueSyntax),
    Return(PrintArg),
    Print(PrintArg),
}

/// A block as the grammar derives it: docs lines, a method, a path, an
/// optional handler name, and a body.
pub struct BlockSyntax {
    pub docs: Seq<Seq<char>>,
    pub method: HttpMethod,
    pub path: Seq<char>,
    pub handler_name: Option<Seq<char>>,
    pub body: Seq<StatementSyntax>,
}

pub open spec fn arg_wf(a: PrintArg) -> bool {
    a.kind == Token::Identifier || a.kind == Token::String || a.kind == Token::Number || a.kind
        == Token::Execute
}

pub open spec fn statement_wf(st: StatementSyntax) -> bool {
    match st {
        StatementSyntax::Assign(name, v) => {
            &&& name != "return"@
            &&& name != "print"@
            &&& (v matches ValueSyntax::PrintCall(a) ==> arg_wf(a))
        },
        StatementSyntax::Return(a) => arg_wf(a),
        StatementSyntax::Print(a) => arg_wf(a),
    }
}

pub open spec fn block_wf(b: BlockSyntax) -> bool {
    forall|k: int| 0 <= k < b.body.len() ==> statement_wf(#[trigger] b.body[k])
}

pub open spec fn blocks_wf(bs: Seq<BlockSyntax>) -> bool {
    forall|k: int| 0 <= k < bs.len() ==> block_wf(#[trigger] bs[k])
}

// ---------------------------------------------------------------------------
// Rendering to tokens: kinds and texts

pub open spec fn method_token(m: HttpMethod) -> (Token, Seq<char>) {
    match m {
        HttpMethod::Get => (Token::Get, "GET"@),
        HttpMethod::Post => (Token::Post, "POST"@),
        HttpMethod::Put => (Token::Put, "PUT"@),
        HttpMethod::Delete => (Token::Delete, "DELETE"@),
        HttpMethod::Patch => (Token::Patch, "PATCH"@),
    }
}

pub open spec fn render_print(a: PrintArg) -> Seq<(Token, Seq<char>)> {
    seq![
        (Token::Print, "print"@),
        (Token::LeftParent, "("@),
        (a.kind, a.text),
        (Token::RightParent, ")"@),
    ]
}

pub open spec fn render_value(v: ValueSyntax) -> Seq<(Token, Seq<char>)> {
    match v {
        ValueSyntax::Str(x) => seq![(Token::String, x)],
        ValueSyntax::Exec(x) => seq![(Token::Execute, x)],
        ValueSyntax::PrintCall(a) => render_print(a),
    }
}

pub open spec fn render_statement(st: StatementSyntax) -> Seq<(Token, Seq<char>)> {
    match st {
        StatementSyntax::Assign(name, v) => seq![(Token::Identifier, name), (Token::Equal, "="@)]
            + render_value(v),
        StatementSyntax::Return(a) => seq![(Token::Return, "return"@), (a.kind, a.text)],
        StatementSyntax::Print(a) => render_print(a),
    }
}

pub open spec fn render_statements(sts: Seq<StatementSyntax>) -> Seq<(Token, Seq<char>)>
    decreases sts.len(),
{
    if sts.len() == 0 {
        Seq::empty()
    } else {
        render_statement(sts[0]) + render_statements(sts.drop_first())
    }
}

pub open spec fn render_docs(docs: Seq<Seq<char>>) -> Seq<(Token, Seq<char>)> {
    docs.map_values(|d: Seq<char>| (Token::Docs, d))
}

pub open spec fn render_head(b: BlockSyntax) -> Seq<(Token, Seq<char>)> {
    seq![method_token(b.method), (Token::Path, b.path)] + (match b.handler_name {
        Some(h) => seq![(Token::Fn, "main"@), (Token::Identifier, h)],
        None => Seq::empty(),
    })
}

pub open spec fn render_block(b: BlockSyntax) -> Seq<(Token, Seq<char>)> {
    render_docs(b.docs) + render_head(b) + seq![(Token::LeftBrace, "{"@)] + render_statements(
        b.body,
    ) + seq![(Token::RightBrace, "}"@)]
}

pub open spec fn render_blocks(bs: Seq<BlockSyntax>) -> Seq<(Token, Seq<char>)>
    decreases bs.len(),
{
    if bs.len() == 0 {
        Seq::empty()
    } else {
        render_block(bs[0]) + render_blocks(bs.drop_first())
    }
}

/// The tokens from `i` on have the kinds and texts of `r`.
#[verifier::opaque]
pub open spec fn tokens_at(t: Seq<TokenKind>, i: int, r: Seq<(Token, Seq<char>)>) -> bool {
    &&& 0 <= i
    &&& i + r.len() <= t.len()
    &&& forall|j: int|
        i <= j < i + r.len() ==> (#[trigger] t[j]).token == r[j - i].0 && t[j].value@ == r[j
            - i].1
}

// ---------------------------------------------------------------------------
// What the parser makes of them

pub open spec fn arg_model(a: PrintArg) -> ValueModel {
    if a.kind == Token::Execute {
        ValueModel::Exec(a.text)
    } else {
        ValueModel::Str(a.text)
    }
}

pub open spec fn value_syntax_model(v: ValueSyntax) -> ValueModel {
    match v {
        ValueSyntax::Str(x) => ValueModel::Str(x),
        ValueSyntax::Exec(x) => ValueModel::Exec(x),
        ValueSyntax::PrintCall(a) => ValueModel::Print(Box::new(arg_model(a))),
    }
}

pub open spec fn statement_model(st: StatementSyntax) -> AssignmentModel {
    match st {
        StatementSyntax::Assign(name, v) => AssignmentModel {
            name,
            value: value_syntax_model(v),
        },
        StatementSyntax::Return(a) => AssignmentModel { name: "return"@, value: arg_model(a) },
        StatementSyntax::Print(a) => AssignmentModel { name: "print"@, value: arg_model(a) },
    }
}

pub open spec fn block_syntax_model(b: BlockSyntax) -> BlockModel {
    BlockModel {
        docs: if b.docs.len() == 0 {
            None
        } else {
            Some(join_lines(b.docs))
        },
        method: Some(b.method),
        path: Some(b.path),
        handler_name: b.handler_name,
        body: b.body.map_values(|st: StatementSyntax| statement_model(st)),
    }
}


// ---------------------------------------------------------------------------
// Proofs

pub proof fn lemma_tokens_at_concat(
    t: Seq<TokenKind>,
    i: int,
    a: Seq<(Token, Seq<char>)>,
    b: Seq<(Token, Seq<char>)>,
)
    ensures
        tokens_at(t, i, a + b) <==> (tokens_at(t, i, a) && tokens_at(t, i + a.len(), b)),
{
    reveal(tokens_at);
    let ab = a + b;
    if tokens_at(t, i, ab) {
        assert forall|j: int| i <= j < i + a.len() implies (#[trigger] t[j]).token == a[j - i].0
            && t[j].value@ == a[j - i].1 by {
            assert(ab[j - i] == a[j - i]);
        }
        assert forall|j: int| i + a.len() <= j < i + a.len() + b.len() implies (
        #[trigger] t[j]).token == b[j - (i + a.len())].0 && t[j].value@ == b[j - (i
            + a.len())].1 by {
            assert(ab[j - i] == b[j - i - a.len()]);
        }
    }
    if tokens_at(t, i, a) && tokens_at(t, i + a.len(), b) {
        assert forall|j: int| i <= j < i + ab.len() implies (#[trigger] t[j]).token == ab[j - i].0
            && t[j].value@ == ab[j - i].1 by {
            if j < i + a.len() {
                assert(ab[j - i] == a[j - i]);
            } else {
                assert(ab[j - i] == b[j - i - a.len()]);
                assert(t[j].token == b[j - (i + a.len())].0);
            }
        }
    }
}

/// The token at `j` of a stream with the kinds and texts of `r` from `i`.
pub proof fn lemma_tokens_at_index(t: Seq<TokenKind>, i: int, r: Seq<(Token, Seq<char>)>, k: int)
    requires
        tokens_at(t, i, r),
        0 <= k < r.len(),
    ensures
        t[i + k].token == r[k].0,
        t[i + k].value@ == r[k].1,
{
    reveal(tokens_at);
    assert(t[i + k].token == r[(i + k) - i].0);
}

pub proof fn lemma_tokens_at_len(t: Seq<TokenKind>, i: int, r: Seq<(Token, Seq<char>)>)
    requires
        tokens_at(t, i, r),
    ensures
        0 <= i,
        i + r.len() <= t.len(),
{
    reveal(tokens_at);
}

pub proof fn lemma_statement_parses(t: Seq<TokenKind>, s: PState, st: StatementSyntax)
    requires
        statement_wf(st),
        tokens_at(t, s.idx, render_statement(st)),
    ensures
        crate::parser::spec_statement(t, s) == (
            seq![statement_model(st)],
            PState { idx: s.idx + render_statement(st).len(), errs: s.errs },
        ),
{
    let r = render_statement(st);
    let i = s.idx;
    lemma_tokens_at_len(t, i, r);
    match st {
        StatementSyntax::Assign(name, v) => {
            lemma_tokens_at_index(t, i, r, 0);
            lemma_tokens_at_index(t, i, r, 1);
            lemma_tokens_at_index(t, i, r, 2);
            match v {
                ValueSyntax::PrintCall(a) => {
                    lemma_tokens_at_index(t, i, r, 3);
                    lemma_tokens_at_index(t, i, r, 4);
                    lemma_tokens_at_index(t, i, r, 5);
                },
                _ => {},
            }
        },
        StatementSyntax::Return(a) => {
            lemma_tokens_at_index(t, i, r, 0);
            lemma_tokens_at_index(t, i, r, 1);
        },
        StatementSyntax::Print(a) => {
            lemma_tokens_at_index(t, i, r, 0);
            lemma_tokens_at_index(t, i, r, 1);
            lemma_tokens_at_index(t, i, r, 2);
            lemma_tokens_at_index(t, i, r, 3);
        },
    }
}


pub proof fn lemma_statements_parse(t: Seq<TokenKind>, s: PState, sts: Seq<StatementSyntax>)
    requires
        forall|k: int| 0 <= k < sts.len() ==> statement_wf(#[trigger] sts[k]),
        tokens_at(t, s.idx, render_statements(sts) + seq![(Token::RightBrace, "}"@)]),
    ensures
        spec_statements(t, s) == (
            sts.map_values(|st: StatementSyntax| statement_model(st)),
            PState { idx: s.idx + render_statements(sts).len(), errs: s.errs },
        ),
    decreases sts.len(),
{
    let i = s.idx;
    let close = seq![(Token::RightBrace, "}"@)];
    if sts.len() == 0 {
        lemma_tokens_at_index(t, i, render_statements(sts) + close, 0);
        assert(sts.map_values(|st: StatementSyntax| statement_model(st)) =~= Seq::empty());
    } else {
        let r0 = render_statement(sts[0]);
        let rest = render_statements(sts.drop_first());
        assert(render_statements(sts) + close =~= r0 + (rest + close));
        lemma_tokens_at_concat(t, i, r0, rest + close);
        assert(statement_wf(sts[0]));
        lemma_statement_parses(t, s, sts[0]);
        lemma_tokens_at_index(t, i, r0, 0);
        let s2 = PState { idx: i + r0.len(), errs: s.errs };
        assert forall|k: int| 0 <= k < sts.drop_first().len() implies statement_wf(
            #[trigger] sts.drop_first()[k],
        ) by {
            assert(sts.drop_first()[k] == sts[k + 1]);
        }
        lemma_statements_parse(t, s2, sts.drop_first());
        assert(sts.map_values(|st: StatementSyntax| statement_model(st)) =~= seq![
            statement_model(sts[0]),
        ] + sts.drop_first().map_values(|st: StatementSyntax| statement_model(st)));
    }
}


pub proof fn lemma_docs_parse(t: Seq<TokenKind>, i: int, docs: Seq<Seq<char>>)
    requires
        tokens_at(t, i, render_docs(docs)),
        i + docs.len() < t.len(),
        t[i + docs.len()].token != Token::Docs,
    ensures
        docs_from(t, i) == docs,
    decreases docs.len(),
{
    lemma_tokens_at_len(t, i, render_docs(docs));
    if docs.len() > 0 {
        lemma_tokens_at_index(t, i, render_docs(docs), 0);
        let rest = docs.drop_first();
        assert(render_docs(docs) =~= seq![(Token::Docs, docs[0])] + render_docs(rest));
        lemma_tokens_at_concat(t, i, seq![(Token::Docs, docs[0])], render_docs(rest));
        lemma_docs_parse(t, i + 1, rest);
        assert(docs_from(t, i) =~= docs);
    }
}

pub proof fn lemma_body_parses(t: Seq<TokenKind>, s: PState, sts: Seq<StatementSyntax>)
    requires
        forall|k: int| 0 <= k < sts.len() ==> statement_wf(#[trigger] sts[k]),
        tokens_at(t, s.idx, render_statements(sts) + seq![(Token::RightBrace, "}"@)]),
    ensures
        crate::parser::spec_body(t, s) == (
            sts.map_values(|st: StatementSyntax| statement_model(st)),
            PState { idx: s.idx + render_statements(sts).len() + 1, errs: s.errs },
        ),
{
    let c = seq![(Token::RightBrace, "}"@)];
    let body = render_statements(sts);
    lemma_tokens_at_len(t, s.idx, body + c);
    lemma_statements_parse(t, s, sts);
    lemma_tokens_at_concat(t, s.idx, body, c);
    lemma_tokens_at_index(t, s.idx + body.len(), c, 0);
}

#[verifier::rlimit(40)]
pub proof fn lemma_block_parses(t: Seq<TokenKind>, s: PState, b: BlockSyntax)
    requires
        block_wf(b),
        tokens_at(t, s.idx, render_block(b)),
    ensures
        crate::parser::spec_block(t, s) == crate::parser::BlockStep::Next(
            Some(block_syntax_model(b)),
            PState { idx: s.idx + render_block(b).len(), errs: s.errs },
        ),
{
    let i = s.idx;
    let e = s.errs;
    let d = render_docs(b.docs);
    let m = seq![method_token(b.method)];
    let p = seq![(Token::Path, b.path)];
    let h = match b.handler_name {
        Some(x) => seq![(Token::Fn, "main"@), (Token::Identifier, x)],
        None => Seq::<(Token, Seq<char>)>::empty(),
    };
    let o = seq![(Token::LeftBrace, "{"@)];
    let body = render_statements(b.body);
    let c = seq![(Token::RightBrace, "}"@)];
    assert(render_head(b) =~= m + p + h);
    assert(render_block(b) =~= d + (m + (p + (h + (o + (body + c))))));
    lemma_tokens_at_len(t, i, render_block(b));
    lemma_tokens_at_concat(t, i, d, m + (p + (h + (o + (body + c)))));
    let i1 = i + d.len();
    lemma_tokens_at_concat(t, i1, m, p + (h + (o + (body + c))));
    let i2 = i1 + m.len();
    lemma_tokens_at_concat(t, i2, p, h + (o + (body + c)));
    let i3 = i2 + p.len();
    lemma_tokens_at_concat(t, i3, h, o + (body + c));
    let i4 = i3 + h.len();
    lemma_tokens_at_concat(t, i4, o, body + c);
    lemma_tokens_at_index(t, i4, o, 0);
    assert(forall|k: int| 0 <= k < b.body.len() ==> statement_wf(#[trigger] b.body[k]));
    lemma_body_parses(t, PState { idx: i4 + 1, errs: e }, b.body);
    let bm = b.body.map_values(|st: StatementSyntax| statement_model(st));
    let i6 = i4 + 1 + body.len() + 1;
    assert(render_block(b).len() == i6 - i);
    // docs
    lemma_tokens_at_index(t, i1, m, 0);
    lemma_tokens_at_index(t, i2, p, 0);
    if h.len() > 0 {
        lemma_tokens_at_index(t, i3, h, 0);
        lemma_tokens_at_index(t, i3, h, 1);
    }
    assert(t[i1].token != Token::Docs);
    lemma_docs_parse(t, i, b.docs);
    let s1 = PState { idx: i1, errs: e };
    assert(crate::cursor::take_docs(t, s) == (block_syntax_model(b).docs, s1));
    // method
    let s2 = PState { idx: i2, errs: e };
    assert(crate::parser::spec_http_method(t, s1) == (Some(b.method), s2));
    // path
    let s3 = PState { idx: i3, errs: e };
    assert(crate::cursor::is_at(t, s2, Token::Path));
    assert(t[i2].value@ == b.path);
    // handler and brace
    assert(crate::cursor::is_at(t, s3, Token::Fn) == (b.handler_name is Some));
}


pub proof fn lemma_blocks_parse(t: Seq<TokenKind>, s: PState, bs: Seq<BlockSyntax>)
    requires
        blocks_wf(bs),
        tokens_at(t, s.idx, render_blocks(bs)),
        s.idx + render_blocks(bs).len() == t.len(),
    ensures
        spec_blocks(t, s) == (
            bs.map_values(|b: BlockSyntax| block_syntax_model(b)),
            PState { idx: t.len() as int, errs: s.errs },
        ),
    decreases bs.len(),
{
    lemma_tokens_at_len(t, s.idx, render_blocks(bs));
    if bs.len() == 0 {
        assert(bs.map_values(|b: BlockSyntax| block_syntax_model(b)) =~= Seq::empty());
    } else {
        let r0 = render_block(bs[0]);
        let rest = bs.drop_first();
        lemma_tokens_at_concat(t, s.idx, r0, render_blocks(rest));
        assert(block_wf(bs[0]));
        lemma_block_parses(t, s, bs[0]);
        assert(r0.len() > 0);
        assert forall|k: int| 0 <= k < rest.len() implies block_wf(#[trigger] rest[k]) by {
            assert(rest[k] == bs[k + 1]);
        }
        let s1 = PState { idx: s.idx + r0.len(), errs: s.errs };
        lemma_blocks_parse(t, s1, rest);
        assert(bs.map_values(|b: BlockSyntax| block_syntax_model(b)) =~= seq![
            block_syntax_model(bs[0]),
        ] + rest.map_values(|b: BlockSyntax| block_syntax_model(b)));
    }
}

/// The kinds and texts of a token stream.
pub open spec fn token_texts(t: Seq<TokenKind>) -> Seq<(Token, Seq<char>)> {
    t.map_values(|tk: TokenKind| (tk.token, tk.value@))
}

/// Every token stream that the grammar derives parses without error into
/// the blocks it was derived from: docs lines joined with newlines, the
/// method, path and handler name, and one assignment per statement (a
/// `return` statement as an assignment to `return`, a print statement as an
/// assignment to `print`, a print call as a print value).
pub proof fn law_derived_programs_parse(t: Seq<TokenKind>, bs: Seq<BlockSyntax>)
    requires
        blocks_wf(bs),
        token_texts(t) == render_blocks(bs),
    ensures
        spec_parse(t) == (
            bs.map_values(|b: BlockSyntax| block_syntax_model(b)),
            Seq::<crate::cursor::ErrorModel>::empty(),
        ),
{
    let r = render_blocks(bs);
    assert(t.len() == r.len());
    assert(tokens_at(t, 0, r)) by {
        reveal(tokens_at);
        assert forall|j: int| 0 <= j < 0 + r.len() implies (#[trigger] t[j]).token == r[j
            - 0].0 && t[j].value@ == r[j - 0].1 by {
            assert(token_texts(t)[j] == r[j]);
        }
    }
    lemma_blocks_parse(t, PState { idx: 0, errs: Seq::empty() }, bs);
}

} // verus!
