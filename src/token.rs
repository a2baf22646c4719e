use vstd::prelude::*;

verus! {

/// One lexical unit of an arithmetic expression.
///
/// A `Number` holds the decimal literal it was read from (digits, at most one
/// `.`, and an optional leading `-`); turning that text into a machine number
/// is left to the caller.
#[derive(Debug, PartialEq, Eq)]
pub enum Token {
    Number(String),
    Operator(char),
    LParen,
    RParen,
}

/// The mathematical model of a [`Token`]: the literal text of a number is a
/// sequence of characters.
pub enum TokenView {
    Number(Seq<char>),
    Operator(char),
    LParen,
    RParen,
}

impl View for Token {
    type V = TokenView;

    open spec fn view(&self) -> TokenView {
        match self {
            Token::Number(s) => TokenView::Number(s@),
            Token::Operator(c) => TokenView::Operator(*c),
            Token::LParen => TokenView::LParen,
            Token::RParen => TokenView::RParen,
        }
    }
}

/// The views of a sequence of tokens, element by element.
pub open spec fn tokens_view(ts: Seq<Token>) -> Seq<TokenView> {
    ts.map_values(|t: Token| t@)
}

/// The five binary operator symbols.
pub open spec fn is_operator_symbol(c: char) -> bool {
    c == '+' || c == '-' || c == '*' || c == '/' || c == '^'
}

/// Binding strength of an operator symbol: `^` binds tightest, then `*` and
/// `/`, then `+` and `-`. Any other symbol has strength 0.
pub open spec fn spec_precedence(op: char) -> nat {
    if op == '^' {
        3
    } else if op == '*' || op == '/' {
        2
    } else if op == '+' || op == '-' {
        1
    } else {
        0
    }
}

/// Only exponentiation groups from the right.
pub open spec fn spec_right_assoc(op: char) -> bool {
    op == '^'
}

/// Binding strength of an operator symbol.
pub fn precedence(op: char) -> (r: u8)
    ensures
        r == spec_precedence(op),
{
    match op {
        '^' => 3,
        '*' | '/' => 2,
        '+' | '-' => 1,
        _ => 0,
    }
}

/// Whether an operator symbol groups from the right (`a ^ b ^ c` is
/// `a ^ (b ^ c)`).
pub fn is_right_associative(op: char) -> (r: bool)
    ensures
        r == spec_right_assoc(op),
{
    op == '^'
}

pub(crate) proof fn lemma_view_push(s: Seq<Token>, t: Token)
    ensures
        tokens_view(s.push(t)) == tokens_view(s).push(t@),
{
    assert(tokens_view(s.push(t)) =~= tokens_view(s).push(t@));
}

pub(crate) proof fn lemma_view_drop_last(s: Seq<Token>)
    requires
        s.len() > 0,
    ensures
        tokens_view(s.drop_last()) == tokens_view(s).drop_last(),
        tokens_view(s).last() == s.last()@,
{
    assert(tokens_view(s.drop_last()) =~= tokens_view(s).drop_last());
}

/// The same tokens, last first.
pub(crate) fn into_reversed(v: Vec<Token>) -> (r: Vec<Token>)
    ensures
        r@.len() == v@.len(),
        forall|k: int| 0 <= k < v@.len() ==> #[trigger] r@[k] == v@[v@.len() - 1 - k],
{
    let ghost ts = v@;
    let n = v.len();
    let mut rest = v;
    let mut rev: Vec<Token> = Vec::new();
    while rest.len() > 0
        invariant
            n == ts.len(),
            rest@ == ts.subrange(0, n - rev@.len()),
            rev@.len() <= n,
            forall|k: int| 0 <= k < rev@.len() ==> #[trigger] rev@[k] == ts[n - 1 - k],
        decreases rest@.len(),
    {
        let t = rest.pop().unwrap();
        rev.push(t);
        assert(rest@ =~= ts.subrange(0, n - rev@.len()));
    }
    rev
}

} // verus!
