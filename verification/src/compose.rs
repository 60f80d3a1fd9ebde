//! Parsing composes: two token streams that each parse without error parse,
//! one after the other, into the blocks of the first followed by the blocks
//! of the second.
//!
//! The proof runs each grammar procedure on a stream `t` that stands inside
//! a larger stream `u` at an offset, and shows that a run on `t` that
//! records no error does on `u` exactly what it does on `t`.

use vstd::prelude::*;

use crate::cursor::{
    advance, consume, docs_from, is_at, lemma_cursor_moves_on, lemma_docs_from_len,
    take_docs, PState,
};
use crate::parser::{
    lemma_block_body_progress, lemma_block_progress, lemma_blocks_moves_on, lemma_body_moves_on,
    lemma_statement_progress, lemma_statements_moves_on, lemma_synchronize_moves_on,
    lemma_value_moves_on, spec_block, spec_block_body, spec_blocks, spec_body, spec_http_method,
    spec_parse, spec_print, spec_print_value, spec_return, spec_statement, spec_statements,
    spec_value, BlockStep, body_done, HttpMethod,
};
use crate::tokens::{Token, TokenKind};

verus! {

/// `t` stands in `u` from index `off` on.
pub open spec fn window(t: Seq<TokenKind>, u: Seq<TokenKind>, off: int) -> bool {
    &&& 0 <= off
    &&& off + t.len() <= u.len()
    &&& forall|i: int| 0 <= i < t.len() ==> u[i + off] == #[trigger] t[i]
}

/// A cursor state moved `off` tokens on.
pub open spec fn shifted(s: PState, off: int) -> PState {
    PState { idx: s.idx + off, errs: s.errs }
}

proof fn lemma_window_at(t: Seq<TokenKind>, u: Seq<TokenKind>, off: int, k: int)
    requires
        window(t, u, off),
        0 <= k < t.len(),
    ensures
        u[k + off] == t[k],
        k + off < u.len(),
{
    assert(u[k + off] == t[k]);
}

proof fn lemma_frame_print_value(t: Seq<TokenKind>, u: Seq<TokenKind>, off: int, s: PState)
    requires
        window(t, u, off),
        0 <= s.idx,
        spec_print_value(t, s).1.errs.len() == s.errs.len(),
    ensures
        spec_print_value(u, shifted(s, off)) == (
            spec_print_value(t, s).0,
            shifted(spec_print_value(t, s).1, off),
        ),
{
    if s.idx < t.len() {
        lemma_window_at(t, u, off, s.idx);
    }
}

proof fn lemma_frame_value(t: Seq<TokenKind>, u: Seq<TokenKind>, off: int, s: PState)
    requires
        window(t, u, off),
        0 <= s.idx,
        spec_value(t, s).1.errs.len() == s.errs.len(),
    ensures
        spec_value(u, shifted(s, off)) == (spec_value(t, s).0, shifted(spec_value(t, s).1, off)),
{
    if s.idx < t.len() {
        lemma_window_at(t, u, off, s.idx);
        let tok = t[s.idx];
        if tok.token != Token::String && tok.token != Token::Execute
            && crate::parser::is_print_keyword(t, s) && crate::parser::lparen_follows(t, s.idx) {
            lemma_window_at(t, u, off, s.idx + 1);
            let s2 = advance(t, advance(t, s));
            lemma_value_moves_on(t, s2);
            let s3 = spec_print_value(t, s2).1;
            let m = "expected ')' after print value"@;
            lemma_cursor_moves_on(t, s3, Token::RightParent, m);
            lemma_frame_print_value(t, u, off, s2);
            if s3.idx < t.len() {
                lemma_window_at(t, u, off, s3.idx);
            }
            assert(advance(u, advance(u, shifted(s, off))) == shifted(s2, off));
        }
    }
}

proof fn lemma_frame_print(t: Seq<TokenKind>, u: Seq<TokenKind>, off: int, s: PState)
    requires
        window(t, u, off),
        0 <= s.idx <= t.len(),
        spec_print(t, s).1.errs.len() == s.errs.len(),
    ensures
        spec_print(u, shifted(s, off)) == (spec_print(t, s).0, shifted(spec_print(t, s).1, off)),
{
    if s.idx < t.len() {
        lemma_window_at(t, u, off, s.idx);
    }
    let s1 = advance(t, s);
    if s1.idx < t.len() {
        lemma_window_at(t, u, off, s1.idx);
    }
    let m1 = "expected '(' after 'print'"@;
    lemma_cursor_moves_on(t, s1, Token::LeftParent, m1);
    let (ok, s2) = consume(t, s1, Token::LeftParent, m1);
    if ok {
        lemma_value_moves_on(t, s2);
        let s3 = spec_print_value(t, s2).1;
        let m2 = "expected ')' after print value"@;
        lemma_cursor_moves_on(t, s3, Token::RightParent, m2);
        lemma_frame_print_value(t, u, off, s2);
        if s3.idx < t.len() {
            lemma_window_at(t, u, off, s3.idx);
        }
    }
}

proof fn lemma_frame_return(t: Seq<TokenKind>, u: Seq<TokenKind>, off: int, s: PState)
    requires
        window(t, u, off),
        0 <= s.idx <= t.len(),
        spec_return(t, s).1.errs.len() == s.errs.len(),
    ensures
        spec_return(u, shifted(s, off)) == (spec_return(t, s).0, shifted(spec_return(t, s).1, off)),
{
    if s.idx < t.len() {
        lemma_window_at(t, u, off, s.idx);
    }
    let s1 = advance(t, s);
    if s1.idx < t.len() {
        lemma_window_at(t, u, off, s1.idx);
    }
}

proof fn lemma_frame_statement(t: Seq<TokenKind>, u: Seq<TokenKind>, off: int, s: PState)
    requires
        window(t, u, off),
        0 <= s.idx < t.len(),
        spec_statement(t, s).1.errs.len() == s.errs.len(),
    ensures
        spec_statement(u, shifted(s, off)) == (
            spec_statement(t, s).0,
            shifted(spec_statement(t, s).1, off),
        ),
{
    lemma_window_at(t, u, off, s.idx);
    if crate::parser::is_return_keyword(t, s) {
        lemma_frame_return(t, u, off, s);
    } else if crate::parser::is_print_keyword(t, s) {
        lemma_frame_print(t, u, off, s);
    } else {
        let m1 = "expected variable name"@;
        lemma_cursor_moves_on(t, s, Token::Identifier, m1);
        let (ok1, s1) = consume(t, s, Token::Identifier, m1);
        if ok1 {
            let m2 = "expected '=' after variable name"@;
            lemma_cursor_moves_on(t, s1, Token::Equal, m2);
            if s1.idx < t.len() {
                lemma_window_at(t, u, off, s1.idx);
            }
            let (ok2, s2) = consume(t, s1, Token::Equal, m2);
            if ok2 {
                lemma_value_moves_on(t, s2);
                let s3 = spec_value(t, s2).1;
                lemma_cursor_moves_on(t, s3, Token::Fn, Seq::empty());
                lemma_frame_value(t, u, off, s2);
                if s3.idx < t.len() {
                    lemma_window_at(t, u, off, s3.idx);
                }
            }
        }
    }
}

proof fn lemma_frame_statements(t: Seq<TokenKind>, u: Seq<TokenKind>, off: int, s: PState)
    requires
        window(t, u, off),
        0 <= s.idx <= t.len(),
        spec_statements(t, s).1.errs.len() == s.errs.len(),
        spec_statements(t, s).1.idx < t.len(),
    ensures
        spec_statements(u, shifted(s, off)) == (
            spec_statements(t, s).0,
            shifted(spec_statements(t, s).1, off),
        ),
    decreases t.len() - s.idx,
{
    if s.idx < t.len() {
        lemma_window_at(t, u, off, s.idx);
    }
    if !body_done(t, s) {
        lemma_statement_progress(t, s);
        let s2 = spec_statement(t, s).1;
        lemma_statements_moves_on(t, s2);
        lemma_frame_statement(t, u, off, s);
        lemma_frame_statements(t, u, off, s2);
    }
}

proof fn lemma_frame_body(t: Seq<TokenKind>, u: Seq<TokenKind>, off: int, s: PState)
    requires
        window(t, u, off),
        0 <= s.idx <= t.len(),
        spec_body(t, s).1.errs.len() == s.errs.len(),
    ensures
        spec_body(u, shifted(s, off)) == (spec_body(t, s).0, shifted(spec_body(t, s).1, off)),
{
    lemma_statements_moves_on(t, s);
    let s1 = spec_statements(t, s).1;
    let m = "expected '}' to close block body"@;
    lemma_cursor_moves_on(t, s1, Token::RightBrace, m);
    let (ok, s2) = consume(t, s1, Token::RightBrace, m);
    lemma_synchronize_moves_on(t, s2);
    if ok {
        lemma_frame_statements(t, u, off, s);
        lemma_window_at(t, u, off, s1.idx);
    }
}

proof fn lemma_frame_docs(t: Seq<TokenKind>, u: Seq<TokenKind>, off: int, i: int)
    requires
        window(t, u, off),
        0 <= i <= t.len(),
        i + docs_from(t, i).len() < t.len() || off + t.len() == u.len(),
    ensures
        docs_from(u, i + off) == docs_from(t, i),
    decreases t.len() - i,
{
    lemma_docs_from_len(t, i);
    if i < t.len() {
        lemma_window_at(t, u, off, i);
        if t[i].token == Token::Docs {
            lemma_docs_from_len(t, i + 1);
            lemma_frame_docs(t, u, off, i + 1);
            assert(docs_from(u, (i + 1) + off) == docs_from(t, i + 1));
        }
    }
}

proof fn lemma_frame_block_body(
    t: Seq<TokenKind>,
    u: Seq<TokenKind>,
    off: int,
    s3: PState,
    docs: Option<Seq<char>>,
    method: Option<HttpMethod>,
    path: Option<Seq<char>>,
)
    requires
        window(t, u, off),
        0 <= s3.idx <= t.len(),
        spec_block_body(t, s3, docs, method, path) matches BlockStep::Next(_, s1) && s1.errs.len()
            == s3.errs.len(),
    ensures
        spec_block_body(u, shifted(s3, off), docs, method, path) == match spec_block_body(
            t,
            s3,
            docs,
            method,
            path,
        ) {
            BlockStep::Next(ob, s1) => BlockStep::Next(ob, shifted(s1, off)),
            BlockStep::Stop(s1) => BlockStep::Stop(s1),
        },
{
    if s3.idx < t.len() {
        lemma_window_at(t, u, off, s3.idx);
    }
    let e = Seq::<char>::empty();
    if is_at(t, s3, Token::Fn) {
        let s4 = advance(t, s3);
        if s4.idx < t.len() {
            lemma_window_at(t, u, off, s4.idx);
        }
        let m1 = "expected handler name after 'main'"@;
        lemma_cursor_moves_on(t, s4, Token::Identifier, m1);
        let (ok1, s5) = consume(t, s4, Token::Identifier, m1);
        lemma_synchronize_moves_on(t, s5);
        if ok1 {
            if s5.idx < t.len() {
                lemma_window_at(t, u, off, s5.idx);
            }
            let m2 = "expected '{' after handler name"@;
            lemma_cursor_moves_on(t, s5, Token::LeftBrace, m2);
            let (ok2, s6) = consume(t, s5, Token::LeftBrace, m2);
            lemma_synchronize_moves_on(t, s6);
            if ok2 {
                lemma_body_moves_on(t, s6);
                lemma_frame_body(t, u, off, s6);
            }
        }
    } else {
        let m = "expected '{' or `main <handler> {` after path"@;
        lemma_cursor_moves_on(t, s3, Token::LeftBrace, m);
        let (ok, s4) = consume(t, s3, Token::LeftBrace, m);
        lemma_synchronize_moves_on(t, s4);
        if ok {
            lemma_body_moves_on(t, s4);
            lemma_frame_body(t, u, off, s4);
        }
    }
}

proof fn lemma_frame_block(t: Seq<TokenKind>, u: Seq<TokenKind>, off: int, s: PState)
    requires
        window(t, u, off),
        0 <= s.idx < t.len(),
        s.idx + docs_from(t, s.idx).len() < t.len(),
        spec_block(t, s) matches BlockStep::Next(_, s1) && s1.errs.len() == s.errs.len(),
    ensures
        spec_block(u, shifted(s, off)) == match spec_block(t, s) {
            BlockStep::Next(ob, s1) => BlockStep::Next(ob, shifted(s1, off)),
            BlockStep::Stop(s1) => BlockStep::Stop(s1),
        },
{
    lemma_frame_docs(t, u, off, s.idx);
    lemma_docs_from_len(t, s.idx);
    let (docs, s1) = take_docs(t, s);
    assert(take_docs(u, shifted(s, off)) == (docs, shifted(s1, off)));
    lemma_window_at(t, u, off, s1.idx);
    let (method, s2) = spec_http_method(t, s1);
    let me = "expected HTTP method"@;
    lemma_cursor_moves_on(t, s1, Token::Fn, me);
    let e1 = crate::cursor::error_here(t, s1, me);
    lemma_cursor_moves_on(t, e1, Token::Fn, Seq::empty());
    lemma_synchronize_moves_on(t, advance(t, e1));
    lemma_value_moves_on(t, s1);
    assert(spec_http_method(u, shifted(s1, off)) == (method, shifted(s2, off)));
    if method is Some {
        let mp = "expected path after HTTP method"@;
        lemma_cursor_moves_on(t, s2, Token::Path, mp);
        let (okp, s3) = consume(t, s2, Token::Path, mp);
        lemma_synchronize_moves_on(t, s3);
        if okp {
            lemma_window_at(t, u, off, s2.idx);
            let path = Some(t[s2.idx].value@);
            lemma_block_body_progress(t, s3, docs, method, path);
            lemma_frame_block_body(t, u, off, s3, docs, method, path);
        }
    }
}

/// What the blocks parse of `t` inside `u` gives: the blocks of `t`, then
/// what follows `t` in `u`.
proof fn lemma_frame_blocks(t: Seq<TokenKind>, u: Seq<TokenKind>, off: int, s: PState)
    requires
        window(t, u, off),
        0 <= s.idx <= t.len(),
        spec_blocks(t, s).1.errs.len() == s.errs.len(),
        t.len() == 0 || t.last().token != Token::Docs || off + t.len() == u.len(),
    ensures
        ({
            let rest = spec_blocks(
                u,
                PState { idx: off + t.len(), errs: spec_blocks(t, s).1.errs },
            );
            spec_blocks(u, shifted(s, off)) == (spec_blocks(t, s).0 + rest.0, rest.1)
        }),
    decreases t.len() - s.idx,
{
    if s.idx == t.len() {
        let rest = spec_blocks(u, PState { idx: off + t.len(), errs: s.errs });
        assert(spec_blocks(t, s).0 + rest.0 =~= rest.0);
    } else {
        lemma_block_progress(t, s);
        lemma_docs_from_len(t, s.idx);
        lemma_window_at(t, u, off, s.idx);
        let n = docs_from(t, s.idx).len();
        if s.idx + n == t.len() && off + t.len() != u.len() {
            assert(t.last() == t[t.len() - 1]);
            assert(t[t.len() - 1].token == Token::Docs);
        }
        match spec_block(t, s) {
            BlockStep::Stop(s1) => {
                lemma_frame_docs(t, u, off, s.idx);
                assert(s.idx + n == t.len());
                let rest = spec_blocks(u, PState { idx: off + t.len(), errs: s.errs });
                assert(spec_blocks(t, s).0 + rest.0 =~= rest.0);
            },
            BlockStep::Next(ob, s1) => {
                lemma_blocks_moves_on(t, s1);
                lemma_frame_block(t, u, off, s);
                lemma_frame_blocks(t, u, off, s1);
                let rest = spec_blocks(
                    u,
                    PState { idx: off + t.len(), errs: spec_blocks(t, s).1.errs },
                );
                assert(crate::parser::opt_seq(ob) + (spec_blocks(t, s1).0 + rest.0)
                    =~= (crate::parser::opt_seq(ob) + spec_blocks(t, s1).0) + rest.0);
            },
        }
    }
}

/// Two token streams that each parse without error parse, one after the
/// other, without error into the blocks of the first followed by the blocks
/// of the second. The first must not end in a docs line, which would
/// otherwise belong to the first block of the second.
pub proof fn law_parse_concatenation(a: Seq<TokenKind>, b: Seq<TokenKind>)
    requires
        spec_parse(a).1.len() == 0,
        spec_parse(b).1.len() == 0,
        a.len() == 0 || a.last().token != Token::Docs,
    ensures
        spec_parse(a + b) == (spec_parse(a).0 + spec_parse(b).0, Seq::<crate::cursor::ErrorModel>::empty()),
{
    let u = a + b;
    let n = a.len() as int;
    let s0 = PState { idx: 0, errs: Seq::empty() };
    assert forall|i: int| 0 <= i < a.len() implies u[i + 0] == #[trigger] a[i] by {}
    assert forall|i: int| 0 <= i < b.len() implies u[i + n] == #[trigger] b[i] by {}
    assert(window(a, u, 0));
    assert(window(b, u, n));
    lemma_frame_blocks(a, u, 0, s0);
    assert(spec_blocks(a, s0).1.errs =~= Seq::empty());
    assert(shifted(s0, 0) == s0);
    lemma_frame_blocks(b, u, n, s0);
    assert(spec_blocks(b, s0).1.errs =~= Seq::empty());
    assert(shifted(s0, n) == PState { idx: n, errs: Seq::empty() });
    let end = PState { idx: u.len() as int, errs: Seq::empty() };
    assert(spec_blocks(u, end).0 =~= Seq::empty());
    assert(spec_blocks(b, s0).0 + spec_blocks(u, end).0 =~= spec_blocks(b, s0).0);
}

} // verus!
