//! The scanner shared by both token sets: at each position it takes the
//! longest match among the enabled rules, breaking ties by rule priority.

use vstd::prelude::*;
use vstd::utf8::*;

use crate::tokens::Token;

verus! {

/// The token set that a scan recognises.
#[derive(Clone, Copy, Debug, PartialEq, Eq, Structural)]
pub enum Dialect {
    /// Every rule of `Token`.
    Full,
    /// The older route language: `main`, `GET`, executes, identifiers,
    /// numbers, `+ - =`, comments, docs, paths and whitespace.
    Route,
}

/// Byte classes that the rules repeat.
#[derive(Clone, Copy, Debug, PartialEq, Eq, Structural)]
pub enum Class {
    /// `[a-zA-Z0-9_]`
    IdentContinue,
    /// `[0-9]`
    Digit,
    /// `[a-zA-Z0-9/_-]`
    PathChar,
    /// any byte but `\n`
    NotNewline,
    /// `[ \t\n\f]`
    Space,
    /// a UTF-8 continuation byte
    Continuation,
}

/// What the scanner does with one lexeme.
#[derive(Clone, Copy, Debug, PartialEq, Eq, Structural)]
pub enum Outcome {
    Emit(Token),
    Skip,
    Error,
}

/// One lexeme: what became of it and the byte range it covers.
pub struct Lexeme {
    pub outcome: Outcome,
    pub start: int,
    pub end: int,
}

/// How a string literal that starts before `i` ends.
pub enum StrScan {
    /// The closing quote ends just before this offset.
    Closed(int),
    /// No closing quote can follow; the scan stopped at this offset.
    Dead(int),
}

pub open spec fn is_alpha(x: u8) -> bool {
    (0x41 <= x <= 0x5a) || (0x61 <= x <= 0x7a)
}

pub open spec fn is_digit(x: u8) -> bool {
    0x30 <= x <= 0x39
}

pub open spec fn is_ident_start(x: u8) -> bool {
    is_alpha(x) || x == 0x5f
}

pub open spec fn in_class(c: Class, x: u8) -> bool {
    match c {
        Class::IdentContinue => is_ident_start(x) || is_digit(x),
        Class::Digit => is_digit(x),
        Class::PathChar => is_ident_start(x) || is_digit(x) || x == 0x2f || x == 0x2d,
        Class::NotNewline => x != 0x0a,
        Class::Space => x == 0x20 || x == 0x09 || x == 0x0a || x == 0x0c,
        Class::Continuation => is_continuation_byte(x),
    }
}

/// The number of bytes of class `c` that follow one another from `i` on.
pub open spec fn run(c: Class, b: Seq<u8>, i: int) -> int
    decreases b.len() - i,
{
    if 0 <= i < b.len() && in_class(c, b[i]) {
        1 + run(c, b, i + 1)
    } else {
        0
    }
}

/// Scans the body of a string literal whose opening quote stands before `i`:
/// any byte but `"` and `\`, or `\` followed by any byte but `\n`.
pub open spec fn scan_string(b: Seq<u8>, i: int) -> StrScan
    decreases b.len() - i,
{
    if i < 0 || i >= b.len() {
        StrScan::Dead(b.len() as int)
    } else if b[i] == 0x22 {
        StrScan::Closed(i + 1)
    } else if b[i] == 0x5c {
        if i + 1 < b.len() && b[i + 1] != 0x0a {
            scan_string(b, i + 2)
        } else {
            StrScan::Dead(i + 1)
        }
    } else {
        scan_string(b, i + 1)
    }
}

/// The text of the rules that match a fixed word.
pub open spec fn literal(t: Token) -> Seq<u8> {
    match t {
        Token::Fn => seq![0x6d, 0x61, 0x69, 0x6e],  // main
        Token::Function => seq![0x66, 0x6e],  // fn
        Token::Get => seq![0x47, 0x45, 0x54],  // GET
        Token::Post => seq![0x50, 0x4f, 0x53, 0x54],  // POST
        Token::Put => seq![0x50, 0x55, 0x54],  // PUT
        Token::Delete => seq![0x44, 0x45, 0x4c, 0x45, 0x54, 0x45],  // DELETE
        Token::Patch => seq![0x50, 0x41, 0x54, 0x43, 0x48],  // PATCH
        Token::Plus => seq![0x2b],
        Token::Minus => seq![0x2d],
        Token::Equal => seq![0x3d],
        Token::Return => seq![0x72, 0x65, 0x74, 0x75, 0x72, 0x6e],  // return
        Token::Print => seq![0x70, 0x72, 0x69, 0x6e, 0x74],  // print
        Token::LeftParent => seq![0x28],
        Token::RightParent => seq![0x29],
        Token::LeftBrace => seq![0x7b],
        Token::RightBrace => seq![0x7d],
        _ => Seq::empty(),
    }
}

/// Length of the longest match of the rule of `t` that starts at `p`.
pub open spec fn rule_len(t: Token, b: Seq<u8>, p: int) -> Option<int> {
    if p < 0 || p >= b.len() {
        None
    } else {
        match t {
            Token::Identifier => if is_ident_start(b[p]) {
                Some(1 + run(Class::IdentContinue, b, p + 1))
            } else {
                None
            },
            Token::Number => if is_digit(b[p]) {
                Some(1 + run(Class::Digit, b, p + 1))
            } else {
                None
            },
            Token::Execute => if b[p] == 0x24 {
                Some(1 + run(Class::PathChar, b, p + 1))
            } else {
                None
            },
            Token::Path => if b[p] == 0x2f {
                Some(1 + run(Class::PathChar, b, p + 1))
            } else {
                None
            },
            Token::String => if b[p] == 0x22 {
                match scan_string(b, p + 1) {
                    StrScan::Closed(e) => Some(e - p),
                    StrScan::Dead(_) => None,
                }
            } else {
                None
            },
            Token::Comment => if b[p] == 0x23 {
                Some(1 + run(Class::NotNewline, b, p + 1))
            } else {
                None
            },
            Token::Docs => if p + 1 < b.len() && b[p] == 0x23 && b[p + 1] == 0x23 {
                Some(2 + run(Class::NotNewline, b, p + 2))
            } else {
                None
            },
            Token::Whitespace => if in_class(Class::Space, b[p]) {
                Some(1 + run(Class::Space, b, p + 1))
            } else {
                None
            },
            _ => {
                let w = literal(t);
                if p + w.len() <= b.len() && b.subrange(p, p + w.len()) == w {
                    Some(w.len() as int)
                } else {
                    None
                }
            },
        }
    }
}

/// Tie-breaking weight of a rule: twice the length of a fixed word, two for
/// each character class that a pattern requires at least once.
pub open spec fn priority(t: Token) -> int {
    match t {
        Token::String => 4,
        Token::Docs => 4,
        Token::Identifier | Token::Number | Token::Execute | Token::Path | Token::Comment
        | Token::Whitespace => 2,
        _ => 2 * literal(t).len() as int,
    }
}

/// The rules of a dialect, in declaration order.
pub open spec fn rules(d: Dialect) -> Seq<Token> {
    match d {
        Dialect::Full => seq![
            Token::Fn,
            Token::Function,
            Token::Get,
            Token::Post,
            Token::Put,
            Token::Delete,
            Token::Patch,
            Token::Execute,
            Token::Identifier,
            Token::Number,
            Token::String,
            Token::Plus,
            Token::Minus,
            Token::Equal,
            Token::Comment,
            Token::Docs,
            Token::Return,
            Token::Print,
            Token::Path,
            Token::LeftParent,
            Token::RightParent,
            Token::LeftBrace,
            Token::RightBrace,
            Token::Whitespace,
        ],
        Dialect::Route => seq![
            Token::Fn,
            Token::Get,
            Token::Execute,
            Token::Identifier,
            Token::Number,
            Token::Plus,
            Token::Minus,
            Token::Equal,
            Token::Comment,
            Token::Docs,
            Token::Path,
            Token::Whitespace,
        ],
    }
}

/// The best match at `p` among the first `n` rules of `d`: the longest, and
/// among equally long ones the one of highest priority.
pub open spec fn best(d: Dialect, b: Seq<u8>, p: int, n: int) -> Option<(Token, int)>
    decreases n,
{
    if n <= 0 {
        None
    } else {
        let prev = best(d, b, p, n - 1);
        let t = rules(d)[n - 1];
        match rule_len(t, b, p) {
            None => prev,
            Some(l) => match prev {
                None => Some((t, l)),
                Some((pt, pl)) => if l > pl || (l == pl && priority(t) > priority(pt)) {
                    Some((t, l))
                } else {
                    prev
                },
            },
        }
    }
}

pub open spec fn best_match(d: Dialect, b: Seq<u8>, p: int) -> Option<(Token, int)> {
    best(d, b, p, rules(d).len() as int)
}

/// Rules whose matches are dropped from the output.
pub open spec fn is_skipped(t: Token) -> bool {
    t is Comment || t is Whitespace
}

/// Where an error lexeme at `p` ends: an unterminated string runs to where no
/// closing quote can follow any more; any other error covers one character.
pub open spec fn error_end(d: Dialect, b: Seq<u8>, p: int) -> int {
    if d is Full && b[p] == 0x22 {
        match scan_string(b, p + 1) {
            StrScan::Dead(k) => k,
            StrScan::Closed(e) => e,
        }
    } else {
        p + 1 + run(Class::Continuation, b, p + 1)
    }
}

/// The lexeme that starts at `p`.
pub open spec fn next_lexeme(d: Dialect, b: Seq<u8>, p: int) -> Lexeme {
    match best_match(d, b, p) {
        Some((t, l)) => Lexeme {
            outcome: if is_skipped(t) {
                Outcome::Skip
            } else {
                Outcome::Emit(t)
            },
            start: p,
            end: p + l,
        },
        None => Lexeme { outcome: Outcome::Error, start: p, end: error_end(d, b, p) },
    }
}


pub proof fn lemma_run_bounds(c: Class, b: Seq<u8>, i: int)
    requires
        0 <= i <= b.len(),
    ensures
        0 <= run(c, b, i) <= b.len() - i,
    decreases b.len() - i,
{
    if i < b.len() && in_class(c, b[i]) {
        lemma_run_bounds(c, b, i + 1);
    }
}

pub proof fn lemma_scan_string_bounds(b: Seq<u8>, i: int)
    requires
        0 <= i <= b.len(),
    ensures
        match scan_string(b, i) {
            StrScan::Closed(e) => i < e <= b.len(),
            StrScan::Dead(k) => i <= k <= b.len(),
        },
    decreases b.len() - i,
{
    if i < b.len() && b[i] != 0x22 {
        if b[i] == 0x5c {
            if i + 1 < b.len() && b[i + 1] != 0x0a {
                lemma_scan_string_bounds(b, i + 2);
            }
        } else {
            lemma_scan_string_bounds(b, i + 1);
        }
    }
}

pub proof fn lemma_rule_len_bounds(t: Token, b: Seq<u8>, p: int)
    requires
        0 <= p < b.len(),
    ensures
        rule_len(t, b, p) matches Some(l) ==> 1 <= l <= b.len() - p,
{
    lemma_run_bounds(Class::IdentContinue, b, p + 1);
    lemma_run_bounds(Class::Digit, b, p + 1);
    lemma_run_bounds(Class::PathChar, b, p + 1);
    lemma_run_bounds(Class::NotNewline, b, p + 1);
    lemma_run_bounds(Class::Space, b, p + 1);
    lemma_scan_string_bounds(b, p + 1);
    if p + 1 < b.len() {
        lemma_run_bounds(Class::NotNewline, b, p + 2);
    }
}

pub proof fn lemma_best_bounds(d: Dialect, b: Seq<u8>, p: int, n: int)
    requires
        0 <= p < b.len(),
        n <= rules(d).len(),
    ensures
        best(d, b, p, n) matches Some((t, l)) ==> 1 <= l <= b.len() - p && rule_len(t, b, p)
            == Some(l),
    decreases n,
{
    if n > 0 {
        lemma_best_bounds(d, b, p, n - 1);
        lemma_rule_len_bounds(rules(d)[n - 1], b, p);
    }
}

/// Every lexeme is non-empty and ends within the input.
pub proof fn lemma_next_lexeme_bounds(d: Dialect, b: Seq<u8>, p: int)
    requires
        0 <= p < b.len(),
    ensures
        next_lexeme(d, b, p).start == p,
        p < next_lexeme(d, b, p).end <= b.len(),
{
    lemma_best_bounds(d, b, p, rules(d).len() as int);
    lemma_scan_string_bounds(b, p + 1);
    lemma_run_bounds(Class::Continuation, b, p + 1);
}

// ---------------------------------------------------------------------------
// Executable scanner
pub fn in_class_exec(c: Class, x: u8) -> (r: bool)
    ensures
        r == in_class(c, x),
{
    let alpha = (0x41 <= x && x <= 0x5a) || (0x61 <= x && x <= 0x7a);
    let digit = 0x30 <= x && x <= 0x39;
    match c {
        Class::IdentContinue => alpha || x == 0x5f || digit,
        Class::Digit => digit,
        Class::PathChar => alpha || x == 0x5f || digit || x == 0x2f || x == 0x2d,
        Class::NotNewline => x != 0x0a,
        Class::Space => x == 0x20 || x == 0x09 || x == 0x0a || x == 0x0c,
        Class::Continuation => 0x80 <= x && x <= 0xbf,
    }
}

/// Counts the bytes of class `c` that follow one another from `i` on.
pub fn run_len(c: Class, b: &[u8], i: usize) -> (n: usize)
    requires
        i <= b.len(),
    ensures
        n == run(c, b@, i as int),
        i + n <= b.len(),
{
    let mut j = i;
    while j < b.len() && in_class_exec(c, b[j])
        invariant
            i <= j <= b.len(),
            run(c, b@, i as int) == (j - i) + run(c, b@, j as int),
        decreases b.len() - j,
    {
        j += 1;
    }
    j - i
}

/// Scans a string body from `i`; `(true, e)` when the closing quote ends at
/// `e`, `(false, k)` when the scan stops at `k` with no closing quote.
pub fn scan_string_exec(b: &[u8], i: usize) -> (r: (bool, usize))
    requires
        i <= b.len(),
    ensures
        i <= r.1 <= b.len(),
        match scan_string(b@, i as int) {
            StrScan::Closed(e) => r.0 && r.1 == e,
            StrScan::Dead(k) => !r.0 && r.1 == k,
        },
{
    let mut j = i;
    while j < b.len()
        invariant
            i <= j <= b.len(),
            scan_string(b@, i as int) == scan_string(b@, j as int),
        decreases b.len() - j,
    {
        if b[j] == 0x22 {
            return (true, j + 1);
        } else if b[j] == 0x5c {
            if j + 1 < b.len() && b[j + 1] != 0x0a {
                j += 2;
            } else {
                return (false, j + 1);
            }
        } else {
            j += 1;
        }
    }
    (false, b.len())
}

/// The fixed word of a word rule.
pub fn literal_bytes(t: Token) -> (w: Vec<u8>)
    ensures
        w@ == literal(t),
{
    match t {
        Token::Fn => vec![0x6d, 0x61, 0x69, 0x6e],
        Token::Function => vec![0x66, 0x6e],
        Token::Get => vec![0x47, 0x45, 0x54],
        Token::Post => vec![0x50, 0x4f, 0x53, 0x54],
        Token::Put => vec![0x50, 0x55, 0x54],
        Token::Delete => vec![0x44, 0x45, 0x4c, 0x45, 0x54, 0x45],
        Token::Patch => vec![0x50, 0x41, 0x54, 0x43, 0x48],
        Token::Plus => vec![0x2b],
        Token::Minus => vec![0x2d],
        Token::Equal => vec![0x3d],
        Token::Return => vec![0x72, 0x65, 0x74, 0x75, 0x72, 0x6e],
        Token::Print => vec![0x70, 0x72, 0x69, 0x6e, 0x74],
        Token::LeftParent => vec![0x28],
        Token::RightParent => vec![0x29],
        Token::LeftBrace => vec![0x7b],
        Token::RightBrace => vec![0x7d],
        _ => Vec::new(),
    }
}

/// Whether the fixed word `w` stands in `b` at `p`.
fn word_at(b: &[u8], p: usize, w: &Vec<u8>) -> (r: bool)
    requires
        p <= b.len(),
    ensures
        r == (p + w@.len() <= b.len() && b@.subrange(p as int, p + w@.len()) == w@),
{
    if w.len() > b.len() - p {
        return false;
    }
    let mut k: usize = 0;
    while k < w.len()
        invariant
            k <= w.len(),
            p + w.len() <= b.len(),
            forall|m: int| 0 <= m < k ==> b@[p + m] == w@[m],
        decreases w.len() - k,
    {
        if b[p + k] != w[k] {
            assert(b@.subrange(p as int, p + w@.len())[k as int] != w@[k as int]);
            return false;
        }
        k += 1;
    }
    assert(b@.subrange(p as int, p + w@.len()) =~= w@);
    true
}

/// Length of the longest match of the rule of `t` at `p`.
pub fn rule_len_exec(t: Token, b: &[u8], p: usize) -> (r: Option<usize>)
    requires
        p < b.len(),
    ensures
        match rule_len(t, b@, p as int) {
            Some(l) => r == Some(l as usize),
            None => r is None,
        },
{
    proof {
        lemma_rule_len_bounds(t, b@, p as int);
    }
    let x = b[p];
    match t {
        Token::Identifier => if (0x41 <= x && x <= 0x5a) || (0x61 <= x && x <= 0x7a) || x == 0x5f {
            Some(1 + run_len(Class::IdentContinue, b, p + 1))
        } else {
            None
        },
        Token::Number => if 0x30 <= x && x <= 0x39 {
            Some(1 + run_len(Class::Digit, b, p + 1))
        } else {
            None
        },
        Token::Execute => if x == 0x24 {
            Some(1 + run_len(Class::PathChar, b, p + 1))
        } else {
            None
        },
        Token::Path => if x == 0x2f {
            Some(1 + run_len(Class::PathChar, b, p + 1))
        } else {
            None
        },
        Token::String => if x == 0x22 {
            let (closed, e) = scan_string_exec(b, p + 1);
            if closed {
                Some(e - p)
            } else {
                None
            }
        } else {
            None
        },
        Token::Comment => if x == 0x23 {
            Some(1 + run_len(Class::NotNewline, b, p + 1))
        } else {
            None
        },
        Token::Docs => if p + 1 < b.len() && x == 0x23 && b[p + 1] == 0x23 {
            Some(2 + run_len(Class::NotNewline, b, p + 2))
        } else {
            None
        },
        Token::Whitespace => if in_class_exec(Class::Space, x) {
            Some(1 + run_len(Class::Space, b, p + 1))
        } else {
            None
        },
        _ => {
            let w = literal_bytes(t);
            if word_at(b, p, &w) {
                Some(w.len())
            } else {
                None
            }
        },
    }
}

fn priority_exec(t: Token) -> (r: usize)
    ensures
        r == priority(t),
{
    match t {
        Token::String | Token::Docs => 4,
        Token::Identifier | Token::Number | Token::Execute | Token::Path | Token::Comment
        | Token::Whitespace => 2,
        _ => 2 * literal_bytes(t).len(),
    }
}

pub fn rules_exec(d: Dialect) -> (v: Vec<Token>)
    ensures
        v@ == rules(d),
{
    match d {
        Dialect::Full => vec![
            Token::Fn,
            Token::Function,
            Token::Get,
            Token::Post,
            Token::Put,
            Token::Delete,
            Token::Patch,
            Token::Execute,
            Token::Identifier,
            Token::Number,
            Token::String,
            Token::Plus,
            Token::Minus,
            Token::Equal,
            Token::Comment,
            Token::Docs,
            Token::Return,
            Token::Print,
            Token::Path,
            Token::LeftParent,
            Token::RightParent,
            Token::LeftBrace,
            Token::RightBrace,
            Token::Whitespace,
        ],
        Dialect::Route => vec![
            Token::Fn,
            Token::Get,
            Token::Execute,
            Token::Identifier,
            Token::Number,
            Token::Plus,
            Token::Minus,
            Token::Equal,
            Token::Comment,
            Token::Docs,
            Token::Path,
            Token::Whitespace,
        ],
    }
}

/// The best match at `p`: longest first, then highest priority.
pub fn best_match_exec(d: Dialect, b: &[u8], p: usize) -> (r: Option<(Token, usize)>)
    requires
        p < b.len(),
    ensures
        match best_match(d, b@, p as int) {
            Some((t, l)) => r == Some((t, l as usize)),
            None => r is None,
        },
{
    let rs = rules_exec(d);
    let mut cur: Option<(Token, usize)> = None;
    let mut i: usize = 0;
    while i < rs.len()
        invariant
            i <= rs.len(),
            rs@ == rules(d),
            p < b.len(),
            match best(d, b@, p as int, i as int) {
                Some((t, l)) => cur == Some((t, l as usize)),
                None => cur is None,
            },
        decreases rs.len() - i,
    {
        let t = rs[i];
        proof {
            lemma_best_bounds(d, b@, p as int, i as int);
            lemma_rule_len_bounds(t, b@, p as int);
        }
        match rule_len_exec(t, b, p) {
            None => {},
            Some(l) => {
                match cur {
                    None => {
                        cur = Some((t, l));
                    },
                    Some((pt, pl)) => {
                        if l > pl || (l == pl && priority_exec(t) > priority_exec(pt)) {
                            cur = Some((t, l));
                        }
                    },
                }
            },
        }
        i += 1;
    }
    cur
}

/// The lexeme that starts at `p`: what becomes of it, and where it ends.
pub fn next_lexeme_exec(d: Dialect, b: &[u8], p: usize) -> (r: (Outcome, usize))
    requires
        p < b.len(),
    ensures
        r.0 == next_lexeme(d, b@, p as int).outcome,
        r.1 == next_lexeme(d, b@, p as int).end,
{
    proof {
        lemma_next_lexeme_bounds(d, b@, p as int);
    }
    match best_match_exec(d, b, p) {
        Some((t, l)) => {
            let skipped = match t {
                Token::Comment | Token::Whitespace => true,
                _ => false,
            };
            if skipped {
                (Outcome::Skip, p + l)
            } else {
                (Outcome::Emit(t), p + l)
            }
        },
        None => {
            let full = match d {
                Dialect::Full => true,
                Dialect::Route => false,
            };
            if full && b[p] == 0x22 {
                let (_, k) = scan_string_exec(b, p + 1);
                (Outcome::Error, k)
            } else {
                (Outcome::Error, p + 1 + run_len(Class::Continuation, b, p + 1))
            }
        },
    }
}


/// The lexemes of `b` from `p` on, in order.
pub open spec fn lexemes(d: Dialect, b: Seq<u8>, p: int) -> Seq<Lexeme>
    decreases b.len() - p,
{
    if p < 0 || p >= b.len() {
        Seq::empty()
    } else {
        let l = next_lexeme(d, b, p);
        proof {
            lemma_next_lexeme_bounds(d, b, p);
        }
        seq![l] + lexemes(d, b, l.end)
    }
}

/// The emitted tokens of `b` from `p` on: kind, start and end of each.
pub open spec fn token_spans(d: Dialect, b: Seq<u8>, p: int) -> Seq<(Token, int, int)>
    decreases b.len() - p,
{
    if p < 0 || p >= b.len() {
        Seq::empty()
    } else {
        let l = next_lexeme(d, b, p);
        proof {
            lemma_next_lexeme_bounds(d, b, p);
        }
        match l.outcome {
            Outcome::Emit(t) => seq![(t, p, l.end)] + token_spans(d, b, l.end),
            _ => token_spans(d, b, l.end),
        }
    }
}

/// The byte ranges of `b` from `p` on that no rule matches.
pub open spec fn error_spans(d: Dialect, b: Seq<u8>, p: int) -> Seq<(int, int)>
    decreases b.len() - p,
{
    if p < 0 || p >= b.len() {
        Seq::empty()
    } else {
        let l = next_lexeme(d, b, p);
        proof {
            lemma_next_lexeme_bounds(d, b, p);
        }
        match l.outcome {
            Outcome::Error => seq![(p, l.end)] + error_spans(d, b, l.end),
            _ => error_spans(d, b, l.end),
        }
    }
}

/// The lexemes of `b` from `p` on that are not skipped.
pub open spec fn reported(d: Dialect, b: Seq<u8>, p: int) -> Seq<Lexeme>
    decreases b.len() - p,
{
    if p < 0 || p >= b.len() {
        Seq::empty()
    } else {
        let l = next_lexeme(d, b, p);
        proof {
            lemma_next_lexeme_bounds(d, b, p);
        }
        match l.outcome {
            Outcome::Skip => reported(d, b, l.end),
            _ => seq![l] + reported(d, b, l.end),
        }
    }
}

pub proof fn lemma_best_is_max(d: Dialect, b: Seq<u8>, p: int, n: int)
    requires
        0 <= n <= rules(d).len(),
    ensures
        best(d, b, p, n) is None <==> forall|k: int| 0 <= k < n ==> rule_len(#[trigger] rules(d)[k], b, p) is None,
        best(d, b, p, n) matches Some((t, l)) ==> {
            &&& rule_len(t, b, p) == Some(l)
            &&& exists|k: int| 0 <= k < n && #[trigger] rules(d)[k] == t
            &&& forall|k: int|
                0 <= k < n ==> (#[trigger] rule_len(rules(d)[k], b, p) matches Some(l2) ==> (l2 < l
                    || (l2 == l && priority(rules(d)[k]) <= priority(t))))
        },
    decreases n,
{
    if n > 0 {
        lemma_best_is_max(d, b, p, n - 1);
        let t = rules(d)[n - 1];
        if let Some((bt, bl)) = best(d, b, p, n) {
            if bt == t && rule_len(t, b, p) == Some(bl) {
                assert(rules(d)[n - 1] == t);
            }
        }
    }
}

/// The scanner takes the longest match, and among matches of equal length
/// the rule of highest priority: no rule of the dialect matches more of the
/// input at that position, and none of the same length has a higher
/// priority. It reports an error exactly when no rule matches.
pub proof fn law_longest_match(d: Dialect, b: Seq<u8>, p: int)
    ensures
        best_match(d, b, p) is None <==> forall|t: Token| #[trigger] rules(d).contains(t) ==> rule_len(t, b, p) is None,
        best_match(d, b, p) matches Some((t, l)) ==> {
            &&& rules(d).contains(t)
            &&& rule_len(t, b, p) == Some(l)
            &&& forall|r: Token|
                #[trigger] rules(d).contains(r) ==> (rule_len(r, b, p) matches Some(l2) ==> (l2 < l
                    || (l2 == l && priority(r) <= priority(t))))
        },
{
    let n = rules(d).len() as int;
    lemma_best_is_max(d, b, p, n);
    if best_match(d, b, p) is None {
        assert forall|t: Token| #[trigger] rules(d).contains(t) implies rule_len(t, b, p) is None by {
            let k = choose|k: int| 0 <= k < n && rules(d)[k] == t;
            assert(rule_len(rules(d)[k], b, p) is None);
        }
    } else {
        let (t, l) = best_match(d, b, p).unwrap();
        assert forall|r: Token| #[trigger] rules(d).contains(r) implies (rule_len(r, b, p) matches Some(l2) ==> (l2 < l
            || (l2 == l && priority(r) <= priority(t)))) by {
            let k = choose|k: int| 0 <= k < n && rules(d)[k] == r;
            assert(rule_len(rules(d)[k], b, p) == rule_len(r, b, p));
        }
        let k = choose|k: int| 0 <= k < n && #[trigger] rules(d)[k] == t;
        assert(rules(d).contains(t));
    }
}

/// The lexemes of an input tile it: each is non-empty, each starts where
/// the one before it ends, the first starts at the start and the last ends
/// at the end. So their texts, one after the other, give back the input.
pub proof fn law_lexemes_tile_input(d: Dialect, b: Seq<u8>, p: int)
    requires
        0 <= p <= b.len(),
    ensures
        lexemes(d, b, p).len() == 0 <==> p == b.len(),
        lexemes(d, b, p).len() > 0 ==> lexemes(d, b, p)[0].start == p && lexemes(
            d,
            b,
            p,
        ).last().end == b.len(),
        forall|i: int|
            0 <= i < lexemes(d, b, p).len() ==> #[trigger] lexemes(d, b, p)[i].start < lexemes(
                d,
                b,
                p,
            )[i].end,
        forall|i: int|
            0 <= i < lexemes(d, b, p).len() - 1 ==> #[trigger] lexemes(d, b, p)[i].end == lexemes(
                d,
                b,
                p,
            )[i + 1].start,
    decreases b.len() - p,
{
    if p < b.len() {
        lemma_next_lexeme_bounds(d, b, p);
        let l = next_lexeme(d, b, p);
        law_lexemes_tile_input(d, b, l.end);
        let rest = lexemes(d, b, l.end);
        let ls = lexemes(d, b, p);
        assert(ls == seq![l] + rest);
        assert forall|i: int| 0 <= i < ls.len() implies #[trigger] ls[i].start < ls[i].end by {
            if i > 0 {
                assert(ls[i] == rest[i - 1]);
            }
        }
        assert forall|i: int| 0 <= i < ls.len() - 1 implies #[trigger] ls[i].end == ls[i
            + 1].start by {
            if i > 0 {
                assert(ls[i] == rest[i - 1]);
                assert(ls[i + 1] == rest[i]);
            }
        }
    }
}

/// The emitted tokens of an input come in source order and do not overlap:
/// each is non-empty and lies within the input, and each ends no later than
/// the next one starts. Whitespace and comments are never among them.
pub proof fn law_tokens_in_order(d: Dialect, b: Seq<u8>, p: int)
    requires
        0 <= p <= b.len(),
    ensures
        forall|i: int|
            0 <= i < token_spans(d, b, p).len() ==> p <= (#[trigger] token_spans(d, b, p)[i]).1
                < token_spans(d, b, p)[i].2 <= b.len(),
        forall|i: int, j: int|
            0 <= i < j < token_spans(d, b, p).len() ==> (#[trigger] token_spans(d, b, p)[i]).2
                <= (#[trigger] token_spans(d, b, p)[j]).1,
        forall|i: int|
            0 <= i < token_spans(d, b, p).len() ==> !is_skipped(
                (#[trigger] token_spans(d, b, p)[i]).0,
            ),
    decreases b.len() - p,
{
    if p < b.len() {
        lemma_next_lexeme_bounds(d, b, p);
        let l = next_lexeme(d, b, p);
        law_tokens_in_order(d, b, l.end);
        let rest = token_spans(d, b, l.end);
        let ts = token_spans(d, b, p);
        match l.outcome {
            Outcome::Emit(t) => {
                assert(ts == seq![(t, p, l.end)] + rest);
                lemma_best_bounds(d, b, p, rules(d).len() as int);
                assert forall|i: int| 0 <= i < ts.len() implies p <= (#[trigger] ts[i]).1 < ts[i].2
                    <= b.len() by {
                    if i > 0 {
                        assert(ts[i] == rest[i - 1]);
                    }
                }
                assert forall|i: int, j: int| 0 <= i < j < ts.len() implies (#[trigger] ts[i]).2
                    <= (#[trigger] ts[j]).1 by {
                    assert(ts[j] == rest[j - 1]);
                    if i > 0 {
                        assert(ts[i] == rest[i - 1]);
                    }
                }
                assert forall|i: int| 0 <= i < ts.len() implies !is_skipped(
                    (#[trigger] ts[i]).0,
                ) by {
                    if i > 0 {
                        assert(ts[i] == rest[i - 1]);
                    }
                }
            },
            _ => {
                assert(ts == rest);
            },
        }
    }
}

/// The errors of an input come in source order and do not overlap: each
/// is non-empty and lies within the input, and each ends no later than the
/// next one starts.
pub proof fn law_errors_in_order(d: Dialect, b: Seq<u8>, p: int)
    requires
        0 <= p <= b.len(),
    ensures
        forall|i: int|
            0 <= i < error_spans(d, b, p).len() ==> p <= (#[trigger] error_spans(d, b, p)[i]).0
                < error_spans(d, b, p)[i].1 <= b.len(),
        forall|i: int, j: int|
            0 <= i < j < error_spans(d, b, p).len() ==> (#[trigger] error_spans(d, b, p)[i]).1
                <= (#[trigger] error_spans(d, b, p)[j]).0,
    decreases b.len() - p,
{
    if p < b.len() {
        lemma_next_lexeme_bounds(d, b, p);
        let l = next_lexeme(d, b, p);
        law_errors_in_order(d, b, l.end);
        let rest = error_spans(d, b, l.end);
        let es = error_spans(d, b, p);
        match l.outcome {
            Outcome::Error => {
                assert(es == seq![(p, l.end)] + rest);
                assert forall|i: int| 0 <= i < es.len() implies p <= (#[trigger] es[i]).0 < es[i].1
                    <= b.len() by {
                    if i > 0 {
                        assert(es[i] == rest[i - 1]);
                    }
                }
                assert forall|i: int, j: int| 0 <= i < j < es.len() implies (#[trigger] es[i]).1
                    <= (#[trigger] es[j]).0 by {
                    assert(es[j] == rest[j - 1]);
                    if i > 0 {
                        assert(es[i] == rest[i - 1]);
                    }
                }
            },
            _ => {
                assert(es == rest);
            },
        }
    }
}

/// The byte classes are those of the token rules, byte by byte:
/// identifier characters `[a-zA-Z0-9_]`, digits `[0-9]`, path characters
/// `[a-zA-Z0-9/_-]`, any byte but a newline, the whitespace `[ \t\n\f]`,
/// and the UTF-8 continuation bytes `0x80..=0xbf`.
pub proof fn law_byte_classes(x: u8)
    ensures
        in_class(Class::IdentContinue, x) <==> ((0x41 <= x <= 0x5a) || (0x61 <= x <= 0x7a) || (
        0x30 <= x <= 0x39) || x == 0x5f),
        in_class(Class::Digit, x) <==> (0x30 <= x <= 0x39),
        in_class(Class::PathChar, x) <==> ((0x41 <= x <= 0x5a) || (0x61 <= x <= 0x7a) || (0x30
            <= x <= 0x39) || x == 0x5f || x == 0x2f || x == 0x2d),
        in_class(Class::NotNewline, x) <==> x != 0x0a,
        in_class(Class::Space, x) <==> (x == 0x20 || x == 0x09 || x == 0x0a || x == 0x0c),
        in_class(Class::Continuation, x) <==> (0x80 <= x <= 0xbf),
{
}

/// A path character: `[a-zA-Z0-9/_-]`.
pub open spec fn path_byte(x: u8) -> bool {
    (0x41 <= x <= 0x5a) || (0x61 <= x <= 0x7a) || (0x30 <= x <= 0x39) || x == 0x5f || x == 0x2f
        || x == 0x2d
}

/// Every byte of a run is of its class.
pub proof fn lemma_run_all(c: Class, b: Seq<u8>, i: int)
    requires
        0 <= i <= b.len(),
    ensures
        forall|k: int| i <= k < i + run(c, b, i) ==> in_class(c, #[trigger] b[k]),
    decreases b.len() - i,
{
    if i < b.len() && in_class(c, b[i]) {
        lemma_run_all(c, b, i + 1);
    }
}

/// A `Path` or `Execute` token is `/` or `$` followed by every path
/// character that comes after it.
pub open spec fn takes_whole_path(b: Seq<u8>, span: (Token, int, int)) -> bool {
    (span.0 is Path || span.0 is Execute) ==> {
        &&& b[span.1] == (if span.0 is Path {
            0x2fu8
        } else {
            0x24u8
        })
        &&& forall|k: int| span.1 < k < span.2 ==> path_byte(#[trigger] b[k])
        &&& (span.2 == b.len() || !path_byte(b[span.2]))
    }
}

proof fn lemma_lexeme_takes_whole_path(d: Dialect, b: Seq<u8>, p: int)
    requires
        0 <= p < b.len(),
    ensures
        next_lexeme(d, b, p).outcome matches Outcome::Emit(t) ==> takes_whole_path(
            b,
            (t, p, next_lexeme(d, b, p).end),
        ),
{
    lemma_best_bounds(d, b, p, rules(d).len() as int);
    lemma_run_all(Class::PathChar, b, p + 1);
    lemma_run_stop(Class::PathChar, b, p + 1);
}

/// Paths and executes run over every path character `[a-zA-Z0-9/_-]` that
/// follows their first byte: within an emitted `Path` or `Execute` token
/// every byte after the first is a path character, and the byte after the
/// token, if there is one, is not.
pub proof fn law_paths_take_every_path_character(d: Dialect, b: Seq<u8>, p: int)
    requires
        0 <= p <= b.len(),
    ensures
        forall|i: int|
            0 <= i < token_spans(d, b, p).len() ==> takes_whole_path(
                b,
                #[trigger] token_spans(d, b, p)[i],
            ),
    decreases b.len() - p,
{
    if p < b.len() {
        lemma_next_lexeme_bounds(d, b, p);
        lemma_lexeme_takes_whole_path(d, b, p);
        let l = next_lexeme(d, b, p);
        law_paths_take_every_path_character(d, b, l.end);
        let rest = token_spans(d, b, l.end);
        let ts = token_spans(d, b, p);
        match l.outcome {
            Outcome::Emit(t) => {
                assert(ts == seq![(t, p, l.end)] + rest);
                assert forall|i: int| 0 <= i < ts.len() implies takes_whole_path(
                    b,
                    #[trigger] ts[i],
                ) by {
                    if i > 0 {
                        assert(ts[i] == rest[i - 1]);
                    }
                }
            },
            _ => {
                assert(ts == rest);
            },
        }
    }
}

/// An identifier character: `[a-zA-Z0-9_]`.
pub open spec fn word_byte(x: u8) -> bool {
    (0x41 <= x <= 0x5a) || (0x61 <= x <= 0x7a) || (0x30 <= x <= 0x39) || x == 0x5f
}

/// `b[i..j]` is the inside of a string literal: bytes other than `"` and
/// `\`, and escapes, each a `\` and any byte but a newline.
pub open spec fn string_inside(b: Seq<u8>, i: int, j: int) -> bool
    decreases j - i,
{
    if i >= j {
        i == j
    } else if b[i] == 0x5c {
        i + 1 < j && b[i + 1] != 0x0a && string_inside(b, i + 2, j)
    } else {
        b[i] != 0x22 && string_inside(b, i + 1, j)
    }
}

proof fn lemma_scan_string_inside(b: Seq<u8>, i: int)
    requires
        0 <= i <= b.len(),
    ensures
        scan_string(b, i) matches StrScan::Closed(e) ==> string_inside(b, i, e - 1),
    decreases b.len() - i,
{
    if i < b.len() && b[i] != 0x22 {
        if b[i] == 0x5c {
            if i + 1 < b.len() && b[i + 1] != 0x0a {
                lemma_scan_string_inside(b, i + 2);
                lemma_scan_string_bounds(b, i + 2);
            }
        } else {
            lemma_scan_string_inside(b, i + 1);
            lemma_scan_string_bounds(b, i + 1);
        }
    }
}

/// The shape of an emitted token in the bytes it covers: a name starts with
/// a letter or `_` and runs over every name character after it; a number
/// runs over every digit; a docs line is `##` and runs to the end of the
/// line; a string is `"`, then bytes that are not `"` or escapes, then
/// `"`.
pub open spec fn token_shape(b: Seq<u8>, span: (Token, int, int)) -> bool {
    let (k, s, e) = span;
    &&& (k is Identifier ==> {
        &&& ((0x41 <= b[s] <= 0x5a) || (0x61 <= b[s] <= 0x7a) || b[s] == 0x5f)
        &&& forall|j: int| s < j < e ==> word_byte(#[trigger] b[j])
        &&& (e == b.len() || !word_byte(b[e]))
    })
    &&& (k is Number ==> {
        &&& forall|j: int| s <= j < e ==> 0x30 <= #[trigger] b[j] <= 0x39
        &&& (e == b.len() || !(0x30 <= b[e] <= 0x39))
    })
    &&& (k is Docs ==> {
        &&& s + 2 <= e
        &&& b[s] == 0x23 && b[s + 1] == 0x23
        &&& forall|j: int| s <= j < e ==> #[trigger] b[j] != 0x0a
        &&& (e == b.len() || b[e] == 0x0a)
    })
    &&& (k is String ==> s + 2 <= e && b[s] == 0x22 && b[e - 1] == 0x22 && string_inside(
        b,
        s + 1,
        e - 1,
    ))
}

proof fn lemma_lexeme_shape(d: Dialect, b: Seq<u8>, p: int)
    requires
        0 <= p < b.len(),
    ensures
        next_lexeme(d, b, p).outcome matches Outcome::Emit(t) ==> token_shape(
            b,
            (t, p, next_lexeme(d, b, p).end),
        ),
{
    lemma_best_bounds(d, b, p, rules(d).len() as int);
    lemma_run_all(Class::IdentContinue, b, p + 1);
    lemma_run_stop(Class::IdentContinue, b, p + 1);
    lemma_run_all(Class::Digit, b, p + 1);
    lemma_run_stop(Class::Digit, b, p + 1);
    lemma_scan_string_end(b, p + 1);
    lemma_scan_string_bounds(b, p + 1);
    lemma_scan_string_inside(b, p + 1);
    if p + 2 <= b.len() {
        lemma_run_all(Class::NotNewline, b, p + 2);
        lemma_run_stop(Class::NotNewline, b, p + 2);
    }
}

/// Every emitted token has the shape of its kind: names, numbers and docs
/// lines take all they can, and strings are quoted, with only escaped
/// quotes inside.
pub proof fn law_token_shapes(d: Dialect, b: Seq<u8>, p: int)
    requires
        0 <= p <= b.len(),
    ensures
        forall|i: int|
            0 <= i < token_spans(d, b, p).len() ==> token_shape(
                b,
                #[trigger] token_spans(d, b, p)[i],
            ),
    decreases b.len() - p,
{
    if p < b.len() {
        lemma_next_lexeme_bounds(d, b, p);
        lemma_lexeme_shape(d, b, p);
        let l = next_lexeme(d, b, p);
        law_token_shapes(d, b, l.end);
        let rest = token_spans(d, b, l.end);
        let ts = token_spans(d, b, p);
        match l.outcome {
            Outcome::Emit(t) => {
                assert(ts == seq![(t, p, l.end)] + rest);
                assert forall|i: int| 0 <= i < ts.len() implies token_shape(b, #[trigger] ts[i]) by {
                    if i > 0 {
                        assert(ts[i] == rest[i - 1]);
                    }
                }
            },
            _ => {
                assert(ts == rest);
            },
        }
    }
}

/// What a lexeme that starts with `#` is: it runs to the end of its line;
/// it is a docs line when a second `#` follows the first, and a comment,
/// which is dropped, otherwise.
pub open spec fn hash_lexeme_ok(b: Seq<u8>, l: Lexeme) -> bool {
    (0 <= l.start < b.len() && b[l.start] == 0x23) ==> {
        &&& forall|j: int| l.start <= j < l.end ==> #[trigger] b[j] != 0x0a
        &&& (l.end == b.len() || b[l.end] == 0x0a)
        &&& l.outcome == if l.start + 1 < b.len() && b[l.start + 1] == 0x23 {
            Outcome::Emit(Token::Docs)
        } else {
            Outcome::Skip
        }
    }
}

proof fn lemma_hash_lexeme(d: Dialect, b: Seq<u8>, p: int)
    requires
        0 <= p < b.len(),
    ensures
        hash_lexeme_ok(b, next_lexeme(d, b, p)),
{
    if b[p] == 0x23 {
        let n = rules(d).len() as int;
        lemma_best_is_max(d, b, p, n);
        lemma_best_bounds(d, b, p, n);
        lemma_run_all(Class::NotNewline, b, p + 1);
        lemma_run_stop(Class::NotNewline, b, p + 1);
        let is_docs = p + 1 < b.len() && b[p + 1] == 0x23;
        // Only the comment and docs rules match at a `#`.
        assert forall|k: int|
            0 <= k < n && #[trigger] rules(d)[k] != Token::Comment && rules(d)[k]
                != Token::Docs implies rule_len(rules(d)[k], b, p) is None by {
            let r = rules(d)[k];
            let w = literal(r);
            if w.len() > 0 && p + w.len() <= b.len() && b.subrange(p, p + w.len()) == w {
                assert(b.subrange(p, p + w.len())[0] == b[p]);
            }
        }
        let ci = if d is Full {
            14int
        } else {
            8int
        };
        assert(rules(d)[ci] == Token::Comment);
        assert(rules(d)[ci + 1] == Token::Docs);
        assert(rule_len(Token::Comment, b, p) is Some);
        if is_docs {
            assert(run(Class::NotNewline, b, p + 1) == 1 + run(Class::NotNewline, b, p + 2));
        }
    }
}

/// Lexemes that start with `#`: docs lines are kept when `##` starts them,
/// comments are dropped otherwise, and both run to the end of the line.
pub proof fn law_comments_and_docs(d: Dialect, b: Seq<u8>, p: int)
    requires
        0 <= p <= b.len(),
    ensures
        forall|i: int|
            0 <= i < lexemes(d, b, p).len() ==> hash_lexeme_ok(b, #[trigger] lexemes(d, b, p)[i]),
    decreases b.len() - p,
{
    if p < b.len() {
        lemma_next_lexeme_bounds(d, b, p);
        lemma_hash_lexeme(d, b, p);
        let l = next_lexeme(d, b, p);
        law_comments_and_docs(d, b, l.end);
        let rest = lexemes(d, b, l.end);
        let ls = lexemes(d, b, p);
        assert(ls == seq![l] + rest);
        assert forall|i: int| 0 <= i < ls.len() implies hash_lexeme_ok(b, #[trigger] ls[i]) by {
            if i > 0 {
                assert(ls[i] == rest[i - 1]);
            }
        }
    }
}

/// Each emitted token is the best match at its start, and not a skipped
/// one.
pub proof fn lemma_token_spans_are_best(d: Dialect, b: Seq<u8>, p: int)
    requires
        0 <= p <= b.len(),
    ensures
        forall|i: int|
            0 <= i < token_spans(d, b, p).len() ==> {
                let sp = #[trigger] token_spans(d, b, p)[i];
                &&& best_match(d, b, sp.1) == Some((sp.0, sp.2 - sp.1))
                &&& !is_skipped(sp.0)
            },
    decreases b.len() - p,
{
    if p < b.len() {
        lemma_next_lexeme_bounds(d, b, p);
        let l = next_lexeme(d, b, p);
        lemma_token_spans_are_best(d, b, l.end);
        let rest = token_spans(d, b, l.end);
        let ts = token_spans(d, b, p);
        match l.outcome {
            Outcome::Emit(t) => {
                assert(ts == seq![(t, p, l.end)] + rest);
                assert forall|i: int| 0 <= i < ts.len() implies {
                    let sp = #[trigger] ts[i];
                    &&& best_match(d, b, sp.1) == Some((sp.0, sp.2 - sp.1))
                    &&& !is_skipped(sp.0)
                } by {
                    if i > 0 {
                        assert(ts[i] == rest[i - 1]);
                    }
                }
            },
            _ => {
                assert(ts == rest);
            },
        }
    }
}

/// `k` is the end of `b` or the first byte of a character there.
pub open spec fn at_boundary(b: Seq<u8>, k: int) -> bool {
    k == b.len() || (0 <= k < b.len() && !is_continuation_byte(b[k]))
}

pub proof fn lemma_at_boundary_is_char_boundary(b: Seq<u8>, k: int)
    requires
        valid_utf8(b),
        0 <= k <= b.len(),
        at_boundary(b, k),
    ensures
        is_char_boundary(b, k),
{
    if k == b.len() {
        is_char_boundary_start_end_of_seq(b);
    } else {
        is_char_boundary_iff_not_is_continuation_byte(b, k);
    }
}

/// In valid UTF-8 an ASCII byte is followed by the end or by the first byte
/// of a character.
pub proof fn lemma_after_ascii(b: Seq<u8>, i: int)
    requires
        valid_utf8(b),
        0 <= i < b.len(),
        b[i] < 0x80,
    ensures
        at_boundary(b, i + 1),
    decreases b.len(),
{
    if i + 1 < b.len() {
        let n = length_of_first_scalar(b);
        let rest = pop_first_scalar(b);
        assert(valid_first_scalar(b));
        assert(valid_utf8(rest));
        if i + 1 < n {
            assert(false);
        } else if i + 1 == n {
            assert(rest[0] == b[i + 1]);
            assert(valid_first_scalar(rest));
        } else {
            assert(rest[i - n] == b[i]);
            assert(rest[i - n + 1] == b[i + 1]);
            lemma_after_ascii(rest, i - n);
        }
    }
}

pub proof fn lemma_run_stop(c: Class, b: Seq<u8>, i: int)
    requires
        0 <= i <= b.len(),
    ensures
        i + run(c, b, i) == b.len() || !in_class(c, b[i + run(c, b, i)]),
        run(c, b, i) > 0 ==> in_class(c, b[i + run(c, b, i) - 1]),
    decreases b.len() - i,
{
    if i < b.len() && in_class(c, b[i]) {
        lemma_run_stop(c, b, i + 1);
    }
}

pub proof fn lemma_scan_string_end(b: Seq<u8>, i: int)
    requires
        0 <= i <= b.len(),
    ensures
        match scan_string(b, i) {
            StrScan::Closed(e) => b[e - 1] == 0x22,
            StrScan::Dead(k) => k == b.len() || b[k] == 0x0a,
        },
    decreases b.len() - i,
{
    if i < b.len() && b[i] != 0x22 {
        if b[i] == 0x5c {
            if i + 1 < b.len() && b[i + 1] != 0x0a {
                lemma_scan_string_end(b, i + 2);
            }
        } else {
            lemma_scan_string_end(b, i + 1);
        }
    }
}

/// The last byte of a non-skipped match of a word or pattern rule is ASCII,
/// or the match runs to a newline or to the end of the input.
proof fn lemma_rule_end(t: Token, b: Seq<u8>, p: int)
    requires
        valid_utf8(b),
        0 <= p < b.len(),
        rule_len(t, b, p) is Some,
    ensures
        at_boundary(b, p + rule_len(t, b, p).unwrap()),
{
    lemma_rule_len_bounds(t, b, p);
    let l = rule_len(t, b, p).unwrap();
    let e = p + l;
    match t {
        Token::Identifier => {
            lemma_run_stop(Class::IdentContinue, b, p + 1);
            lemma_after_ascii(b, e - 1);
        },
        Token::Number => {
            lemma_run_stop(Class::Digit, b, p + 1);
            lemma_after_ascii(b, e - 1);
        },
        Token::Execute | Token::Path => {
            lemma_run_stop(Class::PathChar, b, p + 1);
            lemma_after_ascii(b, e - 1);
        },
        Token::Whitespace => {
            lemma_run_stop(Class::Space, b, p + 1);
            lemma_after_ascii(b, e - 1);
        },
        Token::String => {
            lemma_scan_string_end(b, p + 1);
            lemma_after_ascii(b, e - 1);
        },
        Token::Comment => {
            lemma_run_stop(Class::NotNewline, b, p + 1);
        },
        Token::Docs => {
            lemma_run_stop(Class::NotNewline, b, p + 2);
        },
        _ => {
            let w = literal(t);
            assert(b.subrange(p, e)[l - 1] == w[l - 1]);
            assert(w[l - 1] < 0x80);
            lemma_after_ascii(b, e - 1);
        },
    }
}

/// Every lexeme of valid UTF-8 ends on a character boundary.
pub proof fn lemma_lexeme_end_boundary(d: Dialect, b: Seq<u8>, p: int)
    requires
        valid_utf8(b),
        0 <= p < b.len(),
    ensures
        at_boundary(b, next_lexeme(d, b, p).end),
{
    lemma_best_bounds(d, b, p, rules(d).len() as int);
    match best_match(d, b, p) {
        Some((t, l)) => {
            lemma_rule_end(t, b, p);
        },
        None => {
            if d is Full && b[p] == 0x22 {
                lemma_scan_string_end(b, p + 1);
                lemma_scan_string_bounds(b, p + 1);
                match scan_string(b, p + 1) {
                    StrScan::Closed(e) => {
                        lemma_after_ascii(b, e - 1);
                    },
                    StrScan::Dead(k) => {},
                }
            } else {
                lemma_run_bounds(Class::Continuation, b, p + 1);
                lemma_run_stop(Class::Continuation, b, p + 1);
            }
        },
    }
}

} // verus!
