//! The token cursor that both parsers walk: a position in the token slice
//! and the errors collected so far.

use vstd::prelude::*;

use crate::parser::ParseError;
use crate::tokens::{position_before, Token, TokenKind};

verus! {

/// A collected parse error.
pub struct ErrorModel {
    pub message: Seq<char>,
    pub line: int,
    pub column: int,
}

/// The parser's state: the index of the current token and the errors so far.
pub struct PState {
    pub idx: int,
    pub errs: Seq<ErrorModel>,
}

pub open spec fn error_model(e: ParseError) -> ErrorModel {
    ErrorModel { message: e.message@, line: e.line as int, column: e.column as int }
}

pub open spec fn errors_model(es: Seq<ParseError>) -> Seq<ErrorModel> {
    es.map_values(|e: ParseError| error_model(e))
}

pub open spec fn at_end(t: Seq<TokenKind>, s: PState) -> bool {
    s.idx >= t.len()
}

/// The current token has kind `k`.
pub open spec fn is_at(t: Seq<TokenKind>, s: PState, k: Token) -> bool {
    0 <= s.idx < t.len() && t[s.idx].token == k
}

/// Moves past the current token, if there is one.
pub open spec fn advance(t: Seq<TokenKind>, s: PState) -> PState {
    if 0 <= s.idx < t.len() {
        PState { idx: s.idx + 1, errs: s.errs }
    } else {
        s
    }
}

/// Where an error at the end of the input is reported: at the last token, or
/// at line 1, column 1 when there are no tokens.
pub open spec fn eof_position(t: Seq<TokenKind>) -> (int, int) {
    if t.len() > 0 {
        (t.last().line as int, t.last().column as int)
    } else {
        (1, 1)
    }
}

/// Where an error is reported: at the current token, or as at the end.
pub open spec fn here_position(t: Seq<TokenKind>, s: PState) -> (int, int) {
    if 0 <= s.idx < t.len() {
        (t[s.idx].line as int, t[s.idx].column as int)
    } else {
        eof_position(t)
    }
}

pub open spec fn with_error(s: PState, m: Seq<char>, pos: (int, int)) -> PState {
    PState { idx: s.idx, errs: s.errs.push(ErrorModel { message: m, line: pos.0, column: pos.1 }) }
}

pub open spec fn error_here(t: Seq<TokenKind>, s: PState, m: Seq<char>) -> PState {
    with_error(s, m, here_position(t, s))
}

pub open spec fn error_eof(t: Seq<TokenKind>, s: PState, m: Seq<char>) -> PState {
    with_error(s, m, eof_position(t))
}

/// Takes the current token if it has kind `k`; records `m` otherwise.
pub open spec fn consume(t: Seq<TokenKind>, s: PState, k: Token, m: Seq<char>) -> (bool, PState) {
    if is_at(t, s, k) {
        (true, advance(t, s))
    } else {
        (false, error_here(t, s, m))
    }
}

/// The values of the `Docs` tokens that follow one another from `i` on.
pub open spec fn docs_from(t: Seq<TokenKind>, i: int) -> Seq<Seq<char>>
    decreases t.len() - i,
{
    if 0 <= i < t.len() && t[i].token == Token::Docs {
        seq![t[i].value@] + docs_from(t, i + 1)
    } else {
        Seq::empty()
    }
}

/// The lines joined with `"\n"` between them.
pub open spec fn join_lines(ls: Seq<Seq<char>>) -> Seq<char>
    decreases ls.len(),
{
    if ls.len() == 0 {
        Seq::empty()
    } else if ls.len() == 1 {
        ls[0]
    } else {
        join_lines(ls.drop_last()) + "\n"@ + ls.last()
    }
}

/// Joining keeps every line, in order: one line joins to itself, and two
/// non-empty lists of lines join to the join of the first, a newline, and
/// the join of the second.
pub proof fn law_join_lines_keeps_every_line(x: Seq<char>, a: Seq<Seq<char>>, b: Seq<Seq<char>>)
    requires
        a.len() > 0,
        b.len() > 0,
    ensures
        join_lines(seq![x]) == x,
        join_lines(a + b) == join_lines(a) + "\n"@ + join_lines(b),
    decreases b.len(),
{
    if b.len() == 1 {
        assert((a + b).drop_last() =~= a);
        assert((a + b).last() == b[0]);
    } else {
        law_join_lines_keeps_every_line(x, a, b.drop_last());
        assert((a + b).drop_last() =~= a + b.drop_last());
        assert((a + b).last() == b.last());
        assert(join_lines(a + b) =~= join_lines(a) + "\n"@ + join_lines(b));
    }
}

/// Takes the `Docs` tokens at the cursor; their values joined by newlines,
/// or nothing when there are none.
pub open spec fn take_docs(t: Seq<TokenKind>, s: PState) -> (Option<Seq<char>>, PState) {
    let ds = docs_from(t, s.idx);
    (
        if ds.len() == 0 {
            None
        } else {
            Some(join_lines(ds))
        },
        PState { idx: s.idx + ds.len(), errs: s.errs },
    )
}

/// The error is reported at the position of one of the tokens, or at line 1,
/// column 1 when there are none.
pub open spec fn error_at_token(t: Seq<TokenKind>, e: ErrorModel) -> bool {
    ||| exists|i: int|
        0 <= i < t.len() && (#[trigger] t[i]).line == e.line && t[i].column == e.column
    ||| (t.len() == 0 && e.line == 1 && e.column == 1)
}

pub open spec fn errors_at_tokens(t: Seq<TokenKind>, errs: Seq<ErrorModel>) -> bool {
    forall|i: int| 0 <= i < errs.len() ==> error_at_token(t, #[trigger] errs[i])
}

/// The line and column of a token.
pub open spec fn token_position(tk: TokenKind) -> (int, int) {
    (tk.line as int, tk.column as int)
}

/// The line and column of an error.
pub open spec fn error_position(e: ErrorModel) -> (int, int) {
    (e.line, e.column)
}

/// The tokens' positions strictly increase, as they do for the tokens of a
/// source text.
pub open spec fn positions_increase(t: Seq<TokenKind>) -> bool {
    forall|i: int, j: int|
        0 <= i < j < t.len() ==> position_before(
            token_position(#[trigger] t[i]),
            token_position(#[trigger] t[j]),
        )
}

/// No error comes after a later one.
pub open spec fn errors_in_order(errs: Seq<ErrorModel>) -> bool {
    forall|i: int, j: int|
        0 <= i < j < errs.len() ==> !position_before(
            error_position(#[trigger] errs[j]),
            error_position(#[trigger] errs[i]),
        )
}

/// For tokens in source order: the errors so far are in order, and none
/// comes after the place the cursor is at.
pub open spec fn errors_ordered(t: Seq<TokenKind>, s: PState) -> bool {
    positions_increase(t) ==> {
        &&& errors_in_order(s.errs)
        &&& forall|i: int|
            0 <= i < s.errs.len() ==> !position_before(
                here_position(t, s),
                error_position(#[trigger] s.errs[i]),
            )
    }
}

/// The cursor only moves forward and stays within the tokens; errors are
/// only added; errors that were reported at tokens stay so, and errors that were in source order
/// stay so.
pub open spec fn moves_on(t: Seq<TokenKind>, s: PState, s2: PState) -> bool {
    &&& s.idx <= s2.idx <= t.len()
    &&& s.errs.len() <= s2.errs.len()
    &&& errors_at_tokens(t, s.errs) ==> errors_at_tokens(t, s2.errs)
    &&& errors_ordered(t, s) ==> errors_ordered(t, s2)
}

/// For tokens in source order, the place of the cursor only moves forward
/// as the cursor does.
pub proof fn lemma_here_position_monotone(t: Seq<TokenKind>, s: PState, s2: PState)
    requires
        positions_increase(t),
        0 <= s.idx <= s2.idx,
    ensures
        !position_before(here_position(t, s2), here_position(t, s)),
{
    if s.idx < t.len() {
        if s2.idx < t.len() {
            if s.idx < s2.idx {
                assert(position_before(token_position(t[s.idx]), token_position(t[s2.idx])));
            }
        } else {
            assert(t.last() == t[t.len() - 1]);
            if s.idx < t.len() - 1 {
                assert(position_before(
                    token_position(t[s.idx]),
                    token_position(t[t.len() - 1]),
                ));
            }
        }
    }
}

/// Errors stay in order when the cursor moves forward without reporting.
pub proof fn lemma_ordered_forward(t: Seq<TokenKind>, s: PState, s2: PState)
    requires
        0 <= s.idx <= s2.idx,
        s2.errs == s.errs,
    ensures
        errors_ordered(t, s) ==> errors_ordered(t, s2),
{
    if positions_increase(t) && errors_ordered(t, s) {
        lemma_here_position_monotone(t, s, s2);
    }
}

/// An error reported at the cursor keeps errors in order.
pub proof fn lemma_ordered_error_here(t: Seq<TokenKind>, s: PState, m: Seq<char>)
    requires
        0 <= s.idx,
    ensures
        errors_ordered(t, s) ==> errors_ordered(t, error_here(t, s, m)),
        at_end(t, s) ==> (errors_ordered(t, s) ==> errors_ordered(t, error_eof(t, s, m))),
{
    let e = error_here(t, s, m).errs;
    if positions_increase(t) && errors_ordered(t, s) {
        assert forall|i: int, j: int| 0 <= i < j < e.len() implies !position_before(
            error_position(#[trigger] e[j]),
            error_position(#[trigger] e[i]),
        ) by {
            assert(e[i] == s.errs[i]);
            if j < s.errs.len() {
                assert(e[j] == s.errs[j]);
            }
        }
        assert forall|i: int| 0 <= i < e.len() implies !position_before(
            here_position(t, error_here(t, s, m)),
            error_position(#[trigger] e[i]),
        ) by {
            if i < s.errs.len() {
                assert(e[i] == s.errs[i]);
            }
        }
        if at_end(t, s) {
            assert(error_eof(t, s, m) == error_here(t, s, m));
        }
    }
}

pub proof fn lemma_docs_from_len(t: Seq<TokenKind>, i: int)
    requires
        0 <= i <= t.len(),
    ensures
        i + docs_from(t, i).len() <= t.len(),
        forall|k: int| i <= k < i + docs_from(t, i).len() ==> (#[trigger] t[k]).token == Token::Docs,
        forall|j: int|
            0 <= j < docs_from(t, i).len() ==> #[trigger] docs_from(t, i)[j] == t[i + j].value@,
        i + docs_from(t, i).len() == t.len() || t[i + docs_from(t, i).len()].token
            != Token::Docs,
    decreases t.len() - i,
{
    if i < t.len() && t[i].token == Token::Docs {
        lemma_docs_from_len(t, i + 1);
        assert(docs_from(t, i).len() == 1 + docs_from(t, i + 1).len());
        assert forall|j: int| 0 <= j < docs_from(t, i).len() implies #[trigger] docs_from(t, i)[j]
            == t[i + j].value@ by {
            if j > 0 {
                assert(docs_from(t, i)[j] == docs_from(t, i + 1)[j - 1]);
                assert(t[(i + 1) + (j - 1)] == t[i + j]);
            }
        }
    }
}

pub proof fn lemma_cursor_moves_on(t: Seq<TokenKind>, s: PState, k: Token, m: Seq<char>)
    requires
        0 <= s.idx <= t.len(),
    ensures
        moves_on(t, s, advance(t, s)),
        moves_on(t, s, error_here(t, s, m)),
        at_end(t, s) ==> moves_on(t, s, error_eof(t, s, m)),
        moves_on(t, s, consume(t, s, k, m).1),
        moves_on(t, s, take_docs(t, s).1),
        !at_end(t, s) ==> advance(t, s).idx == s.idx + 1,
        consume(t, s, k, m).0 ==> consume(t, s, k, m).1.idx == s.idx + 1,
{
    lemma_docs_from_len(t, s.idx);
    lemma_error_position_at_token(t, s, m);
    lemma_ordered_error_here(t, s, m);
    lemma_ordered_forward(t, s, advance(t, s));
    lemma_ordered_forward(t, s, take_docs(t, s).1);
}

proof fn lemma_error_position_at_token(t: Seq<TokenKind>, s: PState, m: Seq<char>)
    requires
        0 <= s.idx <= t.len(),
    ensures
        errors_at_tokens(t, s.errs) ==> errors_at_tokens(t, error_here(t, s, m).errs),
        errors_at_tokens(t, s.errs) ==> errors_at_tokens(t, error_eof(t, s, m).errs),
{
    let h = here_position(t, s);
    let f = eof_position(t);
    if t.len() > 0 {
        assert(t[t.len() - 1] == t.last());
        assert(error_at_token(t, ErrorModel { message: m, line: f.0, column: f.1 }));
    }
    if s.idx < t.len() {
        assert(t[s.idx] == t[s.idx]);
        assert(error_at_token(t, ErrorModel { message: m, line: h.0, column: h.1 }));
    }
    assert(error_at_token(t, ErrorModel { message: m, line: h.0, column: h.1 }));
    if errors_at_tokens(t, s.errs) {
        let e1 = error_here(t, s, m).errs;
        assert forall|i: int| 0 <= i < e1.len() implies error_at_token(t, #[trigger] e1[i]) by {
            if i < s.errs.len() {
                assert(e1[i] == s.errs[i]);
            }
        }
        let e2 = error_eof(t, s, m).errs;
        assert forall|i: int| 0 <= i < e2.len() implies error_at_token(t, #[trigger] e2[i]) by {
            if i < s.errs.len() {
                assert(e2[i] == s.errs[i]);
            }
        }
    }
}

/// A position in a token slice, with the errors collected so far.
pub struct ParserState<'a> {
    pub tokens: &'a [TokenKind],
    pub index: usize,
    pub errors: Vec<ParseError>,
}

impl<'a> ParserState<'a> {
    pub open spec fn state(&self) -> PState {
        PState { idx: self.index as int, errs: errors_model(self.errors@) }
    }

    pub open spec fn wf(&self) -> bool {
        self.index <= self.tokens@.len()
    }

    /// A cursor at the first token, with no errors.
    pub fn new(tokens: &'a [TokenKind]) -> (r: Self)
        ensures
            r.tokens == tokens,
            r.index == 0,
            r.errors@.len() == 0,
            r.wf(),
    {
        ParserState { tokens, index: 0, errors: Vec::new() }
    }

    pub fn current(&self) -> (r: Option<&'a TokenKind>)
        ensures
            r matches Some(x) ==> self.index < self.tokens@.len() && *x == self.tokens@[self.index as int],
            r is None ==> self.index >= self.tokens@.len(),
    {
        if self.index < self.tokens.len() {
            Some(&self.tokens[self.index])
        } else {
            None
        }
    }

    pub fn matches(&self, expected: Token) -> (r: bool)
        ensures
            r == is_at(self.tokens@, self.state(), expected),
    {
        match self.current() {
            Some(tok) => tok.token == expected,
            None => false,
        }
    }

    pub fn at_end(&self) -> (r: bool)
        ensures
            r == at_end(self.tokens@, self.state()),
    {
        self.index >= self.tokens.len()
    }

    pub fn advance(&mut self)
        requires
            old(self).wf(),
        ensures
            final(self).wf(),
            final(self).tokens == old(self).tokens,
            final(self).state() == advance(old(self).tokens@, old(self).state()),
    {
        if self.index < self.tokens.len() {
            self.index += 1;
        }
    }

    fn push_error_at(&mut self, message: &str, line: usize, column: usize)
        requires
            old(self).wf(),
        ensures
            final(self).wf(),
            final(self).tokens == old(self).tokens,
            final(self).state() == with_error(
                old(self).state(),
                message@,
                (line as int, column as int),
            ),
    {
        let e = ParseError { message: message.to_owned(), line, column };
        self.errors.push(e);
        proof {
            assert(errors_model(self.errors@) =~= errors_model(old(self).errors@).push(
                error_model(e),
            ));
        }
    }

    /// Records `message` at the current token, or as at the end of input.
    pub fn push_error_here(&mut self, message: &str)
        requires
            old(self).wf(),
        ensures
            final(self).wf(),
            final(self).tokens == old(self).tokens,
            final(self).state() == error_here(old(self).tokens@, old(self).state(), message@),
    {
        match self.current() {
            Some(tok) => {
                let (line, column) = (tok.line, tok.column);
                self.push_error_at(message, line, column);
            },
            None => self.push_error_eof(message),
        }
    }

    /// Records `message` at the last token, or at line 1, column 1.
    pub fn push_error_eof(&mut self, message: &str)
        requires
            old(self).wf(),
        ensures
            final(self).wf(),
            final(self).tokens == old(self).tokens,
            final(self).state() == error_eof(old(self).tokens@, old(self).state(), message@),
    {
        let n = self.tokens.len();
        let (line, column) = if n > 0 {
            (self.tokens[n - 1].line, self.tokens[n - 1].column)
        } else {
            (1, 1)
        };
        self.push_error_at(message, line, column);
    }

    /// Takes the current token when it has kind `expected`; records
    /// `message` otherwise.
    pub fn consume(&mut self, expected: Token, message: &str) -> (r: Option<&'a TokenKind>)
        requires
            old(self).wf(),
        ensures
            final(self).wf(),
            final(self).tokens == old(self).tokens,
            r is Some == consume(old(self).tokens@, old(self).state(), expected, message@).0,
            final(self).state() == consume(
                old(self).tokens@,
                old(self).state(),
                expected,
                message@,
            ).1,
            r matches Some(x) ==> *x == old(self).tokens@[old(self).index as int],
    {
        if self.matches(expected) {
            let tok = self.current();
            self.advance();
            tok
        } else {
            self.push_error_here(message);
            None
        }
    }

    /// Takes the `Docs` tokens at the cursor and joins their values with
    /// newlines; nothing when there are none.
    pub fn take_docs(&mut self) -> (r: Option<String>)
        requires
            old(self).wf(),
        ensures
            final(self).wf(),
            final(self).tokens == old(self).tokens,
            ({
                let (d, s) = take_docs(old(self).tokens@, old(self).state());
                &&& final(self).state() == s
                &&& match r {
                    Some(x) => d == Some(x@),
                    None => d is None,
                }
            }),
    {
        let ghost t = self.tokens@;
        let ghost start = self.index as int;
        proof {
            lemma_docs_from_len(t, start);
        }
        let mut docs: Vec<String> = Vec::new();
        while self.matches(Token::Docs)
            invariant
                self.wf(),
                self.tokens@ == t,
                self.state().errs == old(self).state().errs,
                start <= self.index,
                docs@.len() == self.index - start,
                docs_from(t, start) == docs@.map_values(|x: String| x@) + docs_from(
                    t,
                    self.index as int,
                ),
            decreases t.len() - self.index,
        {
            let v = self.tokens[self.index].value.clone();
            let ghost before = docs@;
            docs.push(v);
            proof {
                assert(docs@.map_values(|x: String| x@) =~= before.map_values(|x: String| x@).push(
                    v@,
                ));
                assert(docs_from(t, self.index as int) == seq![v@] + docs_from(t, self.index + 1));
            }
            self.advance();
        }
        proof {
            assert(docs_from(t, self.index as int) == Seq::<Seq<char>>::empty());
            assert(docs_from(t, start) =~= docs@.map_values(|x: String| x@));
        }
        if docs.len() == 0 {
            None
        } else {
            Some(join_with_newlines(&docs))
        }
    }
}

/// The strings joined with `"\n"` between them.
pub fn join_with_newlines(parts: &Vec<String>) -> (r: String)
    requires
        parts@.len() > 0,
    ensures
        r@ == join_lines(parts@.map_values(|x: String| x@)),
{
    let ghost ls = parts@.map_values(|x: String| x@);
    let mut out = parts[0].clone();
    let mut i: usize = 1;
    proof {
        assert(ls.take(1).drop_last() =~= Seq::<Seq<char>>::empty());
        assert(ls.take(1) =~= seq![ls[0]]);
    }
    while i < parts.len()
        invariant
            1 <= i <= parts@.len(),
            ls == parts@.map_values(|x: String| x@),
            out@ == join_lines(ls.take(i as int)),
        decreases parts@.len() - i,
    {
        out.append("\n");
        out.append(parts[i].as_str());
        proof {
            assert(ls.take(i + 1).drop_last() =~= ls.take(i as int));
            assert(ls.take(i + 1).last() == ls[i as int]);
        }
        i += 1;
    }
    proof {
        assert(ls.take(parts@.len() as int) =~= ls);
    }
    out
}

} // verus!
