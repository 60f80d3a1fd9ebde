//! The converse of the grammar law: a token stream, written as the lexer
//! writes tokens, that parses without error is one that the block grammar
//! derives. So the parser reports an error for every stream outside the
//! grammar.

use vstd::prelude::*;
use vstd::string::*;
use vstd::utf8::*;

use crate::cursor::{
    advance, consume, docs_from, error_here, is_at, lemma_docs_from_len, take_docs, PState,
};
use crate::grammar::{
    block_wf, blocks_wf, lemma_tokens_at_concat, render_block, render_blocks, render_docs,
    render_head, render_statement, render_statements, statement_wf, token_texts, tokens_at,
    BlockSyntax, PrintArg, StatementSyntax, ValueSyntax, method_token,
};
use crate::parser::{
    body_done, is_method_token, is_print_keyword, is_return_keyword, lemma_block_progress,
    lemma_blocks_moves_on, lemma_statement_progress, lemma_statements_moves_on,
    lemma_synchronize_moves_on, method_of, spec_block, spec_blocks, spec_body, spec_parse,
    spec_statement, spec_statements, BlockStep,
};
use crate::lexer::{
    best_match, law_longest_match, lemma_best_bounds, lemma_token_spans_are_best, literal,
    rule_len, rules, token_spans, Dialect,
};
use crate::tokens::{text_bytes, token_kind_is, Token, TokenKind};

verus! {

/// The text that a token of kind `k` always has, if it has a fixed one.
pub open spec fn fixed_text(k: Token) -> Option<Seq<char>> {
    match k {
        Token::Fn => Some("main"@),
        Token::Function => Some("fn"@),
        Token::Get => Some("GET"@),
        Token::Post => Some("POST"@),
        Token::Put => Some("PUT"@),
        Token::Delete => Some("DELETE"@),
        Token::Patch => Some("PATCH"@),
        Token::Plus => Some("+"@),
        Token::Minus => Some("-"@),
        Token::Equal => Some("="@),
        Token::Return => Some("return"@),
        Token::Print => Some("print"@),
        Token::LeftParent => Some("("@),
        Token::RightParent => Some(")"@),
        Token::LeftBrace => Some("{"@),
        Token::RightBrace => Some("}"@),
        _ => None,
    }
}

/// Every keyword and punctuation token has its fixed text.
pub open spec fn fixed_texts(t: Seq<TokenKind>) -> bool {
    forall|i: int|
        0 <= i < t.len() ==> (fixed_text((#[trigger] t[i]).token) matches Some(w) ==> t[i].value@
            == w)
}

/// The tokens read as the lexer writes them: keywords and punctuation have
/// their fixed texts, and no identifier is spelled `return` or `print`
/// (those words are keywords).
pub open spec fn lexer_spelled(t: Seq<TokenKind>) -> bool {
    &&& fixed_texts(t)
    &&& forall|i: int|
        0 <= i < t.len() ==> ((#[trigger] t[i]).token == Token::Identifier ==> t[i].value@
            != "return"@ && t[i].value@ != "print"@)
}

/// The bytes of a fixed text are those of the lexer's literal for it.
proof fn lemma_fixed_text_bytes(k: Token)
    ensures
        fixed_text(k) matches Some(w) ==> encode_utf8(w) == literal(k),
{
    match k {
        Token::Fn => {
            reveal_strlit("main");
            is_ascii_chars_encode_utf8("main"@);
            assert(encode_utf8("main"@) =~= literal(k));
        },
        Token::Function => {
            reveal_strlit("fn");
            is_ascii_chars_encode_utf8("fn"@);
            assert(encode_utf8("fn"@) =~= literal(k));
        },
        Token::Get => {
            reveal_strlit("GET");
            is_ascii_chars_encode_utf8("GET"@);
            assert(encode_utf8("GET"@) =~= literal(k));
        },
        Token::Post => {
            reveal_strlit("POST");
            is_ascii_chars_encode_utf8("POST"@);
            assert(encode_utf8("POST"@) =~= literal(k));
        },
        Token::Put => {
            reveal_strlit("PUT");
            is_ascii_chars_encode_utf8("PUT"@);
            assert(encode_utf8("PUT"@) =~= literal(k));
        },
        Token::Delete => {
            reveal_strlit("DELETE");
            is_ascii_chars_encode_utf8("DELETE"@);
            assert(encode_utf8("DELETE"@) =~= literal(k));
        },
        Token::Patch => {
            reveal_strlit("PATCH");
            is_ascii_chars_encode_utf8("PATCH"@);
            assert(encode_utf8("PATCH"@) =~= literal(k));
        },
        Token::Plus => {
            reveal_strlit("+");
            is_ascii_chars_encode_utf8("+"@);
            assert(encode_utf8("+"@) =~= literal(k));
        },
        Token::Minus => {
            reveal_strlit("-");
            is_ascii_chars_encode_utf8("-"@);
            assert(encode_utf8("-"@) =~= literal(k));
        },
        Token::Equal => {
            reveal_strlit("=");
            is_ascii_chars_encode_utf8("="@);
            assert(encode_utf8("="@) =~= literal(k));
        },
        Token::Return => {
            reveal_strlit("return");
            is_ascii_chars_encode_utf8("return"@);
            assert(encode_utf8("return"@) =~= literal(k));
        },
        Token::Print => {
            reveal_strlit("print");
            is_ascii_chars_encode_utf8("print"@);
            assert(encode_utf8("print"@) =~= literal(k));
        },
        Token::LeftParent => {
            reveal_strlit("(");
            is_ascii_chars_encode_utf8("("@);
            assert(encode_utf8("("@) =~= literal(k));
        },
        Token::RightParent => {
            reveal_strlit(")");
            is_ascii_chars_encode_utf8(")"@);
            assert(encode_utf8(")"@) =~= literal(k));
        },
        Token::LeftBrace => {
            reveal_strlit("{");
            is_ascii_chars_encode_utf8("{"@);
            assert(encode_utf8("{"@) =~= literal(k));
        },
        Token::RightBrace => {
            reveal_strlit("}");
            is_ascii_chars_encode_utf8("}"@);
            assert(encode_utf8("}"@) =~= literal(k));
        },
        _ => {},
    }
}

/// The token of one emitted span reads as the lexer writes it.
proof fn lemma_span_spelled(b: Seq<u8>, tk: TokenKind, sp: (Token, int, int))
    requires
        best_match(Dialect::Full, b, sp.1) == Some((sp.0, sp.2 - sp.1)),
        0 <= sp.1 < b.len(),
        token_kind_is(tk, b, sp),
    ensures
        fixed_text(tk.token) matches Some(w) ==> tk.value@ == w,
        tk.token == Token::Identifier ==> tk.value@ != "return"@ && tk.value@ != "print"@,
{
    let (k, s, e) = sp;
    lemma_best_bounds(Dialect::Full, b, s, rules(Dialect::Full).len() as int);
    law_longest_match(Dialect::Full, b, s);
    encode_utf8_decode_utf8(tk.value@);
    lemma_fixed_text_bytes(k);
    if let Some(w) = fixed_text(k) {
        encode_utf8_decode_utf8(w);
        assert(text_bytes(tk.value) == b.subrange(s, e));
        assert(b.subrange(s, s + literal(k).len()) == literal(k));
    }
    if k == Token::Identifier {
        lemma_fixed_text_bytes(Token::Return);
        lemma_fixed_text_bytes(Token::Print);
        assert(rules(Dialect::Full)[16] == Token::Return);
        assert(rules(Dialect::Full)[17] == Token::Print);
        assert(rules(Dialect::Full).contains(Token::Return));
        assert(rules(Dialect::Full).contains(Token::Print));
        if tk.value@ == "return"@ {
            assert(b.subrange(s, e) == literal(Token::Return));
            assert(rule_len(Token::Return, b, s) == Some(e - s));
        }
        if tk.value@ == "print"@ {
            assert(b.subrange(s, e) == literal(Token::Print));
            assert(rule_len(Token::Print, b, s) == Some(e - s));
        }
    }
}

/// The lexer writes tokens as `lexer_spelled` says: every token with the
/// text and position of its span reads so.
pub proof fn law_lexer_output_is_spelled(b: Seq<u8>, t: Seq<TokenKind>)
    requires
        t.len() == token_spans(Dialect::Full, b, 0).len(),
        forall|i: int|
            0 <= i < t.len() ==> token_kind_is(
                #[trigger] t[i],
                b,
                token_spans(Dialect::Full, b, 0)[i],
            ),
    ensures
        lexer_spelled(t),
{
    let ts = token_spans(Dialect::Full, b, 0);
    lemma_token_spans_are_best(Dialect::Full, b, 0);
    crate::lexer::law_tokens_in_order(Dialect::Full, b, 0);
    assert forall|i: int| 0 <= i < t.len() implies {
        &&& (fixed_text((#[trigger] t[i]).token) matches Some(w) ==> t[i].value@ == w)
        &&& (t[i].token == Token::Identifier ==> t[i].value@ != "return"@ && t[i].value@
            != "print"@)
    } by {
        assert(token_kind_is(t[i], b, ts[i]));
        lemma_span_spelled(b, t[i], ts[i]);
    }
}

pub proof fn lemma_tokens_at_empty(t: Seq<TokenKind>, i: int)
    requires
        0 <= i <= t.len(),
    ensures
        tokens_at(t, i, Seq::empty()),
{
    reveal(tokens_at);
}

/// One more token at the end of a stretch.
pub proof fn lemma_tokens_at_push(
    t: Seq<TokenKind>,
    i: int,
    r: Seq<(Token, Seq<char>)>,
    x: (Token, Seq<char>),
)
    requires
        tokens_at(t, i, r),
        i + r.len() < t.len(),
        t[i + r.len()].token == x.0,
        t[i + r.len()].value@ == x.1,
    ensures
        tokens_at(t, i, r.push(x)),
{
    reveal(tokens_at);
    let r2 = r.push(x);
    assert forall|j: int| i <= j < i + r2.len() implies (#[trigger] t[j]).token == r2[j - i].0
        && t[j].value@ == r2[j - i].1 by {
        if j < i + r.len() {
            assert(r2[j - i] == r[j - i]);
        }
    }
}

/// A token of kind `k` at `i` in a stream with fixed texts.
pub proof fn lemma_fixed(t: Seq<TokenKind>, i: int, k: Token, w: Seq<char>)
    requires
        fixed_texts(t),
        0 <= i < t.len(),
        t[i].token == k,
        fixed_text(k) == Some(w),
    ensures
        t[i].value@ == w,
{
    assert(fixed_text(t[i].token) matches Some(w2) ==> t[i].value@ == w2);
}

/// The print argument at `i`.
pub open spec fn arg_at(t: Seq<TokenKind>, i: int) -> PrintArg {
    PrintArg { kind: t[i].token, text: t[i].value@ }
}

proof fn lemma_print_tokens(t: Seq<TokenKind>, i: int)
    requires
        fixed_texts(t),
        0 <= i,
        i + 3 < t.len(),
        t[i].token == Token::Print,
        t[i + 1].token == Token::LeftParent,
        t[i + 3].token == Token::RightParent,
    ensures
        tokens_at(t, i, crate::grammar::render_print(arg_at(t, i + 2))),
{
    lemma_fixed(t, i, Token::Print, "print"@);
    lemma_fixed(t, i + 1, Token::LeftParent, "("@);
    lemma_fixed(t, i + 3, Token::RightParent, ")"@);
    let a = arg_at(t, i + 2);
    lemma_tokens_at_empty(t, i);
    let r0 = Seq::<(Token, Seq<char>)>::empty();
    lemma_tokens_at_push(t, i, r0, (Token::Print, "print"@));
    let r1 = r0.push((Token::Print, "print"@));
    lemma_tokens_at_push(t, i, r1, (Token::LeftParent, "("@));
    let r2 = r1.push((Token::LeftParent, "("@));
    lemma_tokens_at_push(t, i, r2, (a.kind, a.text));
    let r3 = r2.push((a.kind, a.text));
    lemma_tokens_at_push(t, i, r3, (Token::RightParent, ")"@));
    assert(r3.push((Token::RightParent, ")"@)) =~= crate::grammar::render_print(a));
}

/// A statement that parses without error is one the grammar derives.
proof fn lemma_statement_derived(t: Seq<TokenKind>, s: PState) -> (st: StatementSyntax)
    requires
        lexer_spelled(t),
        0 <= s.idx < t.len(),
        spec_statement(t, s).1.errs.len() == s.errs.len(),
    ensures
        statement_wf(st),
        tokens_at(t, s.idx, render_statement(st)),
        spec_statement(t, s).1.idx == s.idx + render_statement(st).len(),
{
    let i = s.idx;
    assert(t[i].token == Token::Identifier ==> t[i].value@ != "return"@ && t[i].value@
        != "print"@);
    lemma_tokens_at_empty(t, i);
    let r0 = Seq::<(Token, Seq<char>)>::empty();
    if is_return_keyword(t, s) {
        lemma_fixed(t, i, Token::Return, "return"@);
        let a = arg_at(t, i + 1);
        lemma_tokens_at_push(t, i, r0, (Token::Return, "return"@));
        let r1 = r0.push((Token::Return, "return"@));
        lemma_tokens_at_push(t, i, r1, (a.kind, a.text));
        let st = StatementSyntax::Return(a);
        assert(r1.push((a.kind, a.text)) =~= render_statement(st));
        st
    } else if is_print_keyword(t, s) {
        lemma_print_tokens(t, i);
        StatementSyntax::Print(arg_at(t, i + 2))
    } else {
        let name = t[i].value@;
        lemma_fixed(t, i + 1, Token::Equal, "="@);
        lemma_tokens_at_push(t, i, r0, (Token::Identifier, name));
        let r1 = r0.push((Token::Identifier, name));
        lemma_tokens_at_push(t, i, r1, (Token::Equal, "="@));
        let r2 = r1.push((Token::Equal, "="@));
        let j = i + 2;
        assert(t[j].token == Token::Identifier ==> t[j].value@ != "return"@ && t[j].value@
            != "print"@);
        if t[j].token == Token::String {
            let v = ValueSyntax::Str(t[j].value@);
            lemma_tokens_at_push(t, i, r2, (Token::String, t[j].value@));
            let st = StatementSyntax::Assign(name, v);
            assert(r2.push((Token::String, t[j].value@)) =~= render_statement(st));
            st
        } else if t[j].token == Token::Execute {
            let v = ValueSyntax::Exec(t[j].value@);
            lemma_tokens_at_push(t, i, r2, (Token::Execute, t[j].value@));
            let st = StatementSyntax::Assign(name, v);
            assert(r2.push((Token::Execute, t[j].value@)) =~= render_statement(st));
            st
        } else {
            lemma_print_tokens(t, j);
            let a = arg_at(t, j + 2);
            let v = ValueSyntax::PrintCall(a);
            lemma_tokens_at_concat(t, i, r2, crate::grammar::render_print(a));
            let st = StatementSyntax::Assign(name, v);
            assert(r2 + crate::grammar::render_print(a) =~= render_statement(st));
            st
        }
    }
}

/// The statements of a body that parse without error, up to its `}`.
proof fn lemma_statements_derived(t: Seq<TokenKind>, s: PState) -> (sts: Seq<StatementSyntax>)
    requires
        lexer_spelled(t),
        0 <= s.idx <= t.len(),
        spec_statements(t, s).1.errs.len() == s.errs.len(),
    ensures
        forall|k: int| 0 <= k < sts.len() ==> statement_wf(#[trigger] sts[k]),
        tokens_at(t, s.idx, render_statements(sts)),
        spec_statements(t, s).1.idx == s.idx + render_statements(sts).len(),
    decreases t.len() - s.idx,
{
    if body_done(t, s) {
        lemma_tokens_at_empty(t, s.idx);
        Seq::empty()
    } else {
        lemma_statement_progress(t, s);
        let s2 = spec_statement(t, s).1;
        lemma_statements_moves_on(t, s2);
        let st = lemma_statement_derived(t, s);
        let rest = lemma_statements_derived(t, s2);
        let sts = seq![st] + rest;
        assert(sts[0] == st);
        assert(sts.drop_first() =~= rest);
        assert(render_statements(sts) == render_statement(st) + render_statements(rest));
        lemma_tokens_at_concat(t, s.idx, render_statement(st), render_statements(rest));
        assert forall|k: int| 0 <= k < sts.len() implies statement_wf(#[trigger] sts[k]) by {
            if k > 0 {
                assert(sts[k] == rest[k - 1]);
            }
        }
        sts
    }
}

/// A body that parses without error, with its closing `}`.
proof fn lemma_body_derived(t: Seq<TokenKind>, s: PState) -> (sts: Seq<StatementSyntax>)
    requires
        lexer_spelled(t),
        0 <= s.idx <= t.len(),
        spec_body(t, s).1.errs.len() == s.errs.len(),
    ensures
        forall|k: int| 0 <= k < sts.len() ==> statement_wf(#[trigger] sts[k]),
        tokens_at(t, s.idx, render_statements(sts) + seq![(Token::RightBrace, "}"@)]),
        spec_body(t, s).1.idx == s.idx + render_statements(sts).len() + 1,
{
    lemma_statements_moves_on(t, s);
    let s1 = spec_statements(t, s).1;
    let m = "expected '}' to close block body"@;
    let s2 = consume(t, s1, Token::RightBrace, m).1;
    lemma_synchronize_moves_on(t, s2);
    let sts = lemma_statements_derived(t, s);
    let r = render_statements(sts);
    lemma_fixed(t, s1.idx, Token::RightBrace, "}"@);
    lemma_tokens_at_push(t, s.idx, r, (Token::RightBrace, "}"@));
    assert(r.push((Token::RightBrace, "}"@)) =~= r + seq![(Token::RightBrace, "}"@)]);
    sts
}

/// The docs lines at `i`.
proof fn lemma_docs_derived(t: Seq<TokenKind>, i: int)
    requires
        0 <= i <= t.len(),
    ensures
        tokens_at(t, i, render_docs(docs_from(t, i))),
        render_docs(docs_from(t, i)).len() == docs_from(t, i).len(),
{
    lemma_docs_from_len(t, i);
    reveal(tokens_at);
    let ds = docs_from(t, i);
    let r = render_docs(ds);
    assert forall|j: int| i <= j < i + r.len() implies (#[trigger] t[j]).token == r[j - i].0
        && t[j].value@ == r[j - i].1 by {
        assert(ds[j - i] == t[i + (j - i)].value@);
    }
}

/// A block that parses without error is one the grammar derives.
proof fn lemma_block_derived(t: Seq<TokenKind>, s: PState) -> (b: BlockSyntax)
    requires
        lexer_spelled(t),
        0 <= s.idx < t.len(),
        spec_block(t, s) matches BlockStep::Next(_, s1) && s1.errs.len() == s.errs.len(),
    ensures
        block_wf(b),
        tokens_at(t, s.idx, render_block(b)),
        spec_block(t, s) matches BlockStep::Next(_, s1) && s1.idx == s.idx + render_block(b).len(),
{
    let i = s.idx;
    let e = Seq::<char>::empty();
    lemma_docs_derived(t, i);
    lemma_docs_from_len(t, i);
    let docs = docs_from(t, i);
    let s1 = take_docs(t, s).1;
    let i1 = s1.idx;
    // no method: an error
    let me = "expected HTTP method"@;
    let e1 = error_here(t, s1, me);
    crate::cursor::lemma_cursor_moves_on(t, e1, Token::Fn, e);
    lemma_synchronize_moves_on(t, advance(t, e1));
    let k = t[i1].token;
    let method = method_of(k);
    assert(is_method_token(k));
    lemma_fixed(t, i1, k, method_token(method).1);
    let s2 = advance(t, s1);
    // no path: an error
    let mp = "expected path after HTTP method"@;
    lemma_synchronize_moves_on(t, consume(t, s2, Token::Path, mp).1);
    let i2 = i1 + 1;
    let path = t[i2].value@;
    let s3 = advance(t, s2);
    let i3 = i2 + 1;
    let d = render_docs(docs);
    let mut r = d;
    lemma_tokens_at_push(t, i, r, method_token(method));
    r = r.push(method_token(method));
    lemma_tokens_at_push(t, i, r, (Token::Path, path));
    r = r.push((Token::Path, path));
    let handler: Option<Seq<char>>;
    let s6: PState;
    if is_at(t, s3, Token::Fn) {
        lemma_fixed(t, i3, Token::Fn, "main"@);
        let s4 = advance(t, s3);
        let m1 = "expected handler name after 'main'"@;
        let s5 = consume(t, s4, Token::Identifier, m1).1;
        lemma_synchronize_moves_on(t, s5);
        let m2 = "expected '{' after handler name"@;
        let s6a = consume(t, s5, Token::LeftBrace, m2).1;
        lemma_synchronize_moves_on(t, s6a);
        lemma_fixed(t, i3 + 2, Token::LeftBrace, "{"@);
        handler = Some(t[i3 + 1].value@);
        lemma_tokens_at_push(t, i, r, (Token::Fn, "main"@));
        r = r.push((Token::Fn, "main"@));
        lemma_tokens_at_push(t, i, r, (Token::Identifier, t[i3 + 1].value@));
        r = r.push((Token::Identifier, t[i3 + 1].value@));
        s6 = s6a;
    } else {
        let m = "expected '{' or `main <handler> {` after path"@;
        let s4 = consume(t, s3, Token::LeftBrace, m).1;
        lemma_synchronize_moves_on(t, s4);
        lemma_fixed(t, i3, Token::LeftBrace, "{"@);
        handler = None;
        s6 = s4;
    }
    lemma_tokens_at_push(t, i, r, (Token::LeftBrace, "{"@));
    r = r.push((Token::LeftBrace, "{"@));
    crate::parser::lemma_body_moves_on(t, s6);
    let sts = lemma_body_derived(t, s6);
    let c = render_statements(sts) + seq![(Token::RightBrace, "}"@)];
    lemma_tokens_at_concat(t, i, r, c);
    let b = BlockSyntax { docs, method, path, handler_name: handler, body: sts };
    assert(render_head(b) =~= seq![method_token(method), (Token::Path, path)] + match handler {
        Some(h) => seq![(Token::Fn, "main"@), (Token::Identifier, h)],
        None => Seq::empty(),
    });
    assert(r + c =~= render_block(b));
    b
}

/// The blocks from the cursor on, when they parse without error, and the
/// docs lines that may follow the last block.
proof fn lemma_blocks_derived(t: Seq<TokenKind>, s: PState) -> (r: (
    Seq<BlockSyntax>,
    Seq<Seq<char>>,
))
    requires
        lexer_spelled(t),
        0 <= s.idx <= t.len(),
        spec_blocks(t, s).1.errs.len() == s.errs.len(),
    ensures
        blocks_wf(r.0),
        tokens_at(t, s.idx, render_blocks(r.0) + render_docs(r.1)),
        s.idx + (render_blocks(r.0) + render_docs(r.1)).len() == t.len(),
    decreases t.len() - s.idx,
{
    let none = Seq::<BlockSyntax>::empty();
    if s.idx == t.len() {
        let nd = Seq::<Seq<char>>::empty();
        lemma_tokens_at_empty(t, s.idx);
        assert(render_blocks(none) + render_docs(nd) =~= Seq::empty());
        (none, nd)
    } else {
        lemma_block_progress(t, s);
        match spec_block(t, s) {
            BlockStep::Stop(s1) => {
                lemma_docs_derived(t, s.idx);
                lemma_docs_from_len(t, s.idx);
                let docs = docs_from(t, s.idx);
                assert(render_blocks(none) + render_docs(docs) =~= render_docs(docs));
                (none, docs)
            },
            BlockStep::Next(_, s1) => {
                lemma_blocks_moves_on(t, s1);
                let b = lemma_block_derived(t, s);
                let (bs, tail) = lemma_blocks_derived(t, s1);
                let all = seq![b] + bs;
                assert(all[0] == b);
                assert(all.drop_first() =~= bs);
                assert(render_blocks(all) == render_block(b) + render_blocks(bs));
                lemma_tokens_at_concat(t, s.idx, render_block(b), render_blocks(bs) + render_docs(tail));
                assert(render_blocks(all) + render_docs(tail) =~= render_block(b) + (
                render_blocks(bs) + render_docs(tail)));
                assert forall|k: int| 0 <= k < all.len() implies block_wf(#[trigger] all[k]) by {
                    if k > 0 {
                        assert(all[k] == bs[k - 1]);
                    }
                }
                (all, tail)
            },
        }
    }
}

/// A stream, written as the lexer writes tokens, that parses without error
/// is one that the block grammar derives: its tokens are those of some
/// well-formed blocks, followed perhaps by docs lines that no block
/// follows. Any other stream, such as a body statement that starts with a
/// value, a value that is a number, or a block without its braces, gets an
/// error.
pub proof fn law_error_free_streams_are_derived(t: Seq<TokenKind>)
    requires
        lexer_spelled(t),
        spec_parse(t).1.len() == 0,
    ensures
        exists|bs: Seq<BlockSyntax>, tail: Seq<Seq<char>>|
            blocks_wf(bs) && token_texts(t) == render_blocks(bs) + render_docs(tail),
{
    let s0 = PState { idx: 0, errs: Seq::empty() };
    let (bs, tail) = lemma_blocks_derived(t, s0);
    let r = render_blocks(bs) + render_docs(tail);
    assert(token_texts(t) =~= r) by {
        reveal(tokens_at);
        assert forall|j: int| 0 <= j < t.len() implies token_texts(t)[j] == r[j] by {
            assert(t[j].token == r[j - 0].0);
        }
    }
}

} // verus!
