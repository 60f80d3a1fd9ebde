//! The text of compiler diagnostics: `file:line:column: kind: message`.

use vstd::prelude::*;

verus! {

/// Where a diagnostic points.
#[derive(Debug, Clone)]
pub struct Span {
    pub file: String,
    pub line: usize,
    pub column: usize,
}

/// How serious a diagnostic is.
#[derive(Clone, Copy, Debug, PartialEq, Eq, Structural)]
pub enum DiagnosticKind {
    Error,
    Warning,
    Note,
}

pub open spec fn kind_text(k: DiagnosticKind) -> Seq<char> {
    match k {
        DiagnosticKind::Error => "error"@,
        DiagnosticKind::Warning => "warning"@,
        DiagnosticKind::Note => "note"@,
    }
}

pub open spec fn digit_chars() -> Seq<char> {
    seq!['0', '1', '2', '3', '4', '5', '6', '7', '8', '9']
}

/// The decimal digits of `n`, most significant first, without leading zeros.
pub open spec fn decimal(n: nat) -> Seq<char>
    decreases n,
{
    if n < 10 {
        seq![digit_chars()[n as int]]
    } else {
        decimal(n / 10).push(digit_chars()[(n % 10) as int])
    }
}

/// The number that a string of decimal digits stands for.
pub open spec fn digits_value(s: Seq<char>) -> int
    decreases s.len(),
{
    if s.len() == 0 {
        0
    } else {
        digits_value(s.drop_last()) * 10 + (s.last() as int - 48)
    }
}

proof fn lemma_digit_char(k: int)
    requires
        0 <= k < 10,
    ensures
        '0' <= digit_chars()[k] <= '9',
        digit_chars()[k] as int - 48 == k,
{
    if k == 0 {
    } else if k == 1 {
    } else if k == 2 {
    } else if k == 3 {
    } else if k == 4 {
    } else if k == 5 {
    } else if k == 6 {
    } else if k == 7 {
    } else if k == 8 {
    } else {
    }
}

/// `decimal(n)` writes `n` in base ten: it is made of digits, it has no
/// leading zero unless it is `0` itself, and its digits stand for `n`.
pub proof fn law_decimal_writes_the_number(n: nat)
    ensures
        decimal(n).len() >= 1,
        decimal(n).len() == 1 <==> n < 10,
        forall|i: int| 0 <= i < decimal(n).len() ==> '0' <= #[trigger] decimal(n)[i] <= '9',
        decimal(n).len() > 1 ==> decimal(n)[0] != '0',
        digits_value(decimal(n)) == n,
    decreases n,
{
    if n < 10 {
        lemma_digit_char(n as int);
        let c = digit_chars()[n as int];
        assert(decimal(n) == seq![c]);
        assert(seq![c].drop_last() =~= Seq::<char>::empty());
        assert(digits_value(Seq::<char>::empty()) == 0);
        assert(digits_value(seq![c]) == digits_value(seq![c].drop_last()) * 10 + (c as int - 48));
    } else {
        let q = (n / 10) as nat;
        let r = (n % 10) as int;
        law_decimal_writes_the_number(q);
        lemma_digit_char(r);
        let d = decimal(q);
        let c = digit_chars()[r];
        assert(decimal(n) == d.push(c));
        assert(d.push(c).drop_last() =~= d);
        assert(forall|i: int| 0 <= i < d.len() ==> d.push(c)[i] == d[i]);
        if d.len() == 1 {
            lemma_digit_char(q as int);
            assert(d[0] == digit_chars()[q as int]);
        }
        assert(n == q * 10 + r);
        assert(digits_value(d.push(c)) == digits_value(d) * 10 + (c as int - 48));
    }
}

/// The text of a diagnostic.
pub open spec fn diagnostic_text(k: DiagnosticKind, span: Span, message: Seq<char>) -> Seq<char> {
    span.file@ + ":"@ + decimal(span.line as nat) + ":"@ + decimal(span.column as nat) + ": "@
        + kind_text(k) + ": "@ + message
}

/// The word that names a kind of diagnostic.
pub fn kind_label(kind: DiagnosticKind) -> (r: &'static str)
    ensures
        r@ == kind_text(kind),
{
    match kind {
        DiagnosticKind::Error => "error",
        DiagnosticKind::Warning => "warning",
        DiagnosticKind::Note => "note",
    }
}

/// `String::push`: appends one character to the string.
#[verifier::external_body]
fn push_char(s: &mut String, c: char)
    ensures
        final(s)@ == old(s)@.push(c),
{
    s.push(c);
}

fn digit(d: usize) -> (c: char)
    requires
        d < 10,
    ensures
        c == digit_chars()[d as int],
{
    match d {
        0 => '0',
        1 => '1',
        2 => '2',
        3 => '3',
        4 => '4',
        5 => '5',
        6 => '6',
        7 => '7',
        8 => '8',
        _ => '9',
    }
}

/// Appends the decimal digits of `n`.
fn push_decimal(s: &mut String, n: usize)
    ensures
        final(s)@ == old(s)@ + decimal(n as nat),
    decreases n,
{
    if n >= 10 {
        push_decimal(s, n / 10);
    }
    let ghost mid = s@;
    push_char(s, digit(n % 10));
    proof {
        if n >= 10 {
            assert(s@ =~= old(s)@ + decimal((n / 10) as nat).push(digit_chars()[(n % 10) as int]));
        } else {
            assert(s@ =~= old(s)@ + decimal(n as nat));
        }
    }
}

/// The text of a diagnostic: `file:line:column: kind: message`.
pub fn render_diagnostic(kind: DiagnosticKind, span: &Span, message: &str) -> (r: String)
    ensures
        r@ == diagnostic_text(kind, *span, message@),
{
    let mut s = span.file.clone();
    s.append(":");
    push_decimal(&mut s, span.line);
    s.append(":");
    push_decimal(&mut s, span.column);
    s.append(": ");
    s.append(kind_label(kind));
    s.append(": ");
    s.append(message);
    s
}

} // verus!
