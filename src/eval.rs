use vstd::prelude::*;
use crate::token::{Token, TokenView, tokens_view, into_reversed, is_operator_symbol};

verus! {

/// An expression tree: a decimal literal, or a binary operator applied to a
/// left and a right operand.
#[derive(Debug, PartialEq, Eq)]
pub enum Expr {
    Number(String),
    Binary(char, Box<Expr>, Box<Expr>),
}

/// The mathematical model of an [`Expr`].
pub enum ExprView {
    Number(Seq<char>),
    Binary(char, Box<ExprView>, Box<ExprView>),
}

pub open spec fn expr_view(e: Expr) -> ExprView
    decreases e,
{
    match e {
        Expr::Number(s) => ExprView::Number(s@),
        Expr::Binary(op, l, r) => ExprView::Binary(
            op,
            Box::new(expr_view(*l)),
            Box::new(expr_view(*r)),
        ),
    }
}

impl View for Expr {
    type V = ExprView;

    open spec fn view(&self) -> ExprView {
        expr_view(*self)
    }
}

/// Why a postfix sequence does not denote one expression.
#[derive(Debug, Clone, Copy, PartialEq, Eq, Structural)]
pub enum EvalError {
    /// An operator found fewer than two values on the stack.
    MissingOperand,
    /// A parenthesis, or an operator symbol outside `+ - * / ^`.
    MalformedExpression,
    /// The sequence left no value.
    NoResult,
    /// The sequence left more than one value.
    ExtraOperands,
}

/// The views of a stack of expressions.
pub open spec fn exprs_view(s: Seq<Expr>) -> Seq<ExprView> {
    s.map_values(|e: Expr| e@)
}

/// The model of what [`eval_rpn`] returns.
pub open spec fn eval_result_view(r: Result<Expr, EvalError>) -> Result<ExprView, EvalError> {
    match r {
        Ok(e) => Ok(e@),
        Err(e) => Err(e),
    }
}

/// One postfix token applied to the value stack: a number is pushed; an
/// operator replaces the top two values `a`, `b` (`b` on top) with `a op b`.
pub open spec fn rpn_step(stack: Seq<ExprView>, t: TokenView) -> Result<Seq<ExprView>, EvalError> {
    match t {
        TokenView::Number(s) => Ok(stack.push(ExprView::Number(s))),
        TokenView::Operator(op) => {
            if !is_operator_symbol(op) {
                Err(EvalError::MalformedExpression)
            } else if stack.len() < 2 {
                Err(EvalError::MissingOperand)
            } else {
                let n = stack.len() as int;
                Ok(
                    stack.subrange(0, n - 2).push(
                        ExprView::Binary(op, Box::new(stack[n - 2]), Box::new(stack[n - 1])),
                    ),
                )
            }
        },
        TokenView::LParen => Err(EvalError::MalformedExpression),
        TokenView::RParen => Err(EvalError::MalformedExpression),
    }
}

/// The single value left on the stack at the end.
pub open spec fn rpn_finish(stack: Seq<ExprView>) -> Result<ExprView, EvalError> {
    if stack.len() == 0 {
        Err(EvalError::NoResult)
    } else if stack.len() == 1 {
        Ok(stack[0])
    } else {
        Err(EvalError::ExtraOperands)
    }
}

/// The postfix sequence `ts` run on a value stack.
pub open spec fn rpn_from(ts: Seq<TokenView>, stack: Seq<ExprView>) -> Result<ExprView, EvalError>
    decreases ts.len(),
{
    if ts.len() == 0 {
        rpn_finish(stack)
    } else {
        match rpn_step(stack, ts[0]) {
            Ok(s) => rpn_from(ts.drop_first(), s),
            Err(e) => Err(e),
        }
    }
}

/// The expression a postfix sequence denotes, or why it denotes none.
pub open spec fn rpn(ts: Seq<TokenView>) -> Result<ExprView, EvalError> {
    rpn_from(ts, seq![])
}

fn operator_symbol(c: char) -> (r: bool)
    ensures
        r == is_operator_symbol(c),
{
    c == '+' || c == '-' || c == '*' || c == '/' || c == '^'
}

/// Runs a postfix sequence on a value stack and returns the expression tree
/// it denotes.
///
/// Each number is pushed; each operator pops its right operand, then its
/// left one, and pushes the combined tree. An operator that finds fewer than
/// two values gives [`EvalError::MissingOperand`]; a parenthesis or an
/// unknown operator symbol gives [`EvalError::MalformedExpression`]; at the
/// end exactly one value must remain ([`EvalError::NoResult`] when none,
/// [`EvalError::ExtraOperands`] when more).
pub fn eval_rpn(tokens: Vec<Token>) -> (r: Result<Expr, EvalError>)
    ensures
        eval_result_view(r) == rpn(tokens_view(tokens@)),
{
    let ghost ts = tokens@;
    let ghost tv = tokens_view(ts);
    let n = tokens.len();
    let mut rev = into_reversed(tokens);
    let mut stack: Vec<Expr> = Vec::new();
    let mut i: usize = 0;
    assert(tv.subrange(0, n as int) =~= tv);
    assert(exprs_view(stack@) =~= seq![]);
    while i < n
        invariant
            n == ts.len(),
            ts == tokens@,
            tv == tokens_view(ts),
            i <= n,
            rev@.len() == n - i,
            forall|k: int| 0 <= k < rev@.len() ==> #[trigger] rev@[k] == ts[n - 1 - k],
            rpn(tv) == rpn_from(tv.subrange(i as int, n as int), exprs_view(stack@)),
        decreases n - i,
    {
        let t = rev.pop().unwrap();
        assert(t == ts[i as int]);
        let ghost tail = tv.subrange(i as int, n as int);
        assert(tail[0] == t@);
        assert(tail.drop_first() =~= tv.subrange(i + 1, n as int));
        let ghost st0 = stack@;
        match t {
            Token::Number(s) => {
                stack.push(Expr::Number(s));
                assert(exprs_view(stack@) =~= exprs_view(st0).push(ExprView::Number(s@)));
            },
            Token::Operator(op) => {
                if !operator_symbol(op) {
                    return Err(EvalError::MalformedExpression);
                }
                if stack.len() < 2 {
                    return Err(EvalError::MissingOperand);
                }
                let b = stack.pop().unwrap();
                let a = stack.pop().unwrap();
                stack.push(Expr::Binary(op, Box::new(a), Box::new(b)));
                let ghost m = st0.len() as int;
                assert(exprs_view(stack@) =~= exprs_view(st0).subrange(0, m - 2).push(
                    ExprView::Binary(op, Box::new(exprs_view(st0)[m - 2]), Box::new(exprs_view(st0)[m - 1])),
                ));
            },
            Token::LParen => {
                return Err(EvalError::MalformedExpression);
            },
            Token::RParen => {
                return Err(EvalError::MalformedExpression);
            },
        }
        i = i + 1;
    }
    if stack.len() == 0 {
        Err(EvalError::NoResult)
    } else if stack.len() == 1 {
        let e = stack.pop().unwrap();
        Ok(e)
    } else {
        Err(EvalError::ExtraOperands)
    }
}

} // verus!
