use vstd::prelude::*;
use crate::lexer::{LexError, LexErrorView, lex, lex_result_view, split, tokenize};
use crate::postfix::{postfix, to_postfix};
use crate::eval::{Expr, ExprView, EvalError, eval_rpn, eval_result_view, rpn};

verus! {

/// Why an input line does not denote an expression, with the stage that
/// found out.
#[derive(Debug, PartialEq, Eq)]
pub enum CalcError {
    Lex(LexError),
    Eval(EvalError),
}

/// The mathematical model of a [`CalcError`].
pub enum CalcErrorView {
    Lex(LexErrorView),
    Eval(EvalError),
}

/// The whole pipeline on a character sequence: tokens, their postfix order,
/// and the tree that order denotes.
pub open spec fn analyze(s: Seq<char>) -> Result<ExprView, CalcErrorView> {
    match lex(s) {
        Err(e) => Err(CalcErrorView::Lex(e)),
        Ok(ts) => match rpn(postfix(ts)) {
            Ok(e) => Ok(e),
            Err(e) => Err(CalcErrorView::Eval(e)),
        },
    }
}

/// The model of what [`parse_expression`] returns.
pub open spec fn calc_result_view(r: Result<Expr, CalcError>) -> Result<ExprView, CalcErrorView> {
    match r {
        Ok(e) => Ok(e@),
        Err(CalcError::Lex(e)) => Err(CalcErrorView::Lex(e@)),
        Err(CalcError::Eval(e)) => Err(CalcErrorView::Eval(e)),
    }
}

/// Reads one line of arithmetic into the expression tree it denotes: it is
/// split into tokens, reordered into postfix form and folded on a value
/// stack. The first stage that fails ends the run with its error.
pub fn parse_expression(input: String) -> (r: Result<Expr, CalcError>)
    ensures
        calc_result_view(r) == analyze(input@),
{
    let chars = split(input);
    let tokens = match tokenize(&chars) {
        Ok(ts) => ts,
        Err(e) => {
            return Err(CalcError::Lex(e));
        },
    };
    let rpn_tokens = to_postfix(tokens);
    match eval_rpn(rpn_tokens) {
        Ok(e) => Ok(e),
        Err(e) => Err(CalcError::Eval(e)),
    }
}

} // verus!
