use vstd::prelude::*;
use crate::token::{
    Token,
    TokenView,
    tokens_view,
    lemma_view_push,
    lemma_view_drop_last,
    into_reversed,
    spec_precedence,
    spec_right_assoc,
    precedence,
    is_right_associative,
};

verus! {

/// Whether an operator `op2` on top of the stack leaves it before `op1` is
/// pushed: it binds tighter, or equally tight with `op1` grouping from the left.
pub open spec fn yields_to(op2: char, op1: char) -> bool {
    spec_precedence(op2) > spec_precedence(op1) || (spec_precedence(op2) == spec_precedence(op1)
        && !spec_right_assoc(op1))
}

/// Moves operators from the top of `stack` to `out` while they yield to `op1`.
pub open spec fn pop_ops(op1: char, out: Seq<TokenView>, stack: Seq<TokenView>) -> (Seq<TokenView>, Seq<TokenView>)
    decreases stack.len(),
{
    if stack.len() > 0 && (stack.last() matches TokenView::Operator(op2) && yields_to(op2, op1)) {
        pop_ops(op1, out.push(stack.last()), stack.drop_last())
    } else {
        (out, stack)
    }
}

/// Moves entries from the top of `stack` to `out` up to the nearest `(`,
/// which is dropped. Without one the whole stack moves.
pub open spec fn close_group(out: Seq<TokenView>, stack: Seq<TokenView>) -> (Seq<TokenView>, Seq<TokenView>)
    decreases stack.len(),
{
    if stack.len() == 0 {
        (out, stack)
    } else if stack.last() is LParen {
        (out, stack.drop_last())
    } else {
        close_group(out.push(stack.last()), stack.drop_last())
    }
}

/// Moves every entry of `stack` to `out`, top first.
pub open spec fn drain(out: Seq<TokenView>, stack: Seq<TokenView>) -> Seq<TokenView>
    decreases stack.len(),
{
    if stack.len() == 0 {
        out
    } else {
        drain(out.push(stack.last()), stack.drop_last())
    }
}

/// One token of the shunting-yard method, on the output and the stack.
pub open spec fn shunt_step(out: Seq<TokenView>, stack: Seq<TokenView>, t: TokenView) -> (Seq<TokenView>, Seq<TokenView>) {
    match t {
        TokenView::Number(_) => (out.push(t), stack),
        TokenView::Operator(op1) => {
            let (o, s) = pop_ops(op1, out, stack);
            (o, s.push(t))
        },
        TokenView::LParen => (out, stack.push(t)),
        TokenView::RParen => close_group(out, stack),
    }
}

/// The shunting-yard method on `ts`, from a given output and stack, up to
/// the end of the input: the output and the stack that remain.
pub open spec fn shunt_steps(ts: Seq<TokenView>, out: Seq<TokenView>, stack: Seq<TokenView>) -> (
    Seq<TokenView>,
    Seq<TokenView>,
)
    decreases ts.len(),
{
    if ts.len() == 0 {
        (out, stack)
    } else {
        let (o, s) = shunt_step(out, stack, ts[0]);
        shunt_steps(ts.drop_first(), o, s)
    }
}

/// The postfix order of an infix token sequence: the shunting-yard method
/// run over the whole input, after which the stack moves to the output.
pub open spec fn postfix(ts: Seq<TokenView>) -> Seq<TokenView> {
    let (o, s) = shunt_steps(ts, seq![], seq![]);
    drain(o, s)
}

/// Reorders infix tokens into postfix order by the shunting-yard method.
///
/// Numbers go straight to the output; an operator first moves to the output
/// the operators on the stack that bind tighter (or equally tight, when it
/// groups from the left); `(` is stacked and `)` moves operators out up to
/// it. Unbalanced parentheses are tolerated: a `)` without a partner empties
/// the stack, and a `(` without one is moved to the output at the end.
pub fn to_postfix(tokens: Vec<Token>) -> (r: Vec<Token>)
    ensures
        tokens_view(r@) == postfix(tokens_view(tokens@)),
{
    let ghost ts = tokens@;
    let ghost tv = tokens_view(ts);
    let n = tokens.len();
    let mut rev = into_reversed(tokens);
    let mut output: Vec<Token> = Vec::new();
    let mut op_stack: Vec<Token> = Vec::new();
    let mut i: usize = 0;
    assert(tv.subrange(0, n as int) =~= tv);
    assert(tokens_view(output@) =~= seq![]);
    assert(tokens_view(op_stack@) =~= seq![]);
    while i < n
        invariant
            n == ts.len(),
            tv == tokens_view(ts),
            i <= n,
            rev@.len() == n - i,
            forall|k: int| 0 <= k < rev@.len() ==> #[trigger] rev@[k] == ts[n - 1 - k],
            shunt_steps(tv, seq![], seq![]) == shunt_steps(
                tv.subrange(i as int, n as int),
                tokens_view(output@),
                tokens_view(op_stack@),
            ),
        decreases n - i,
    {
        let t = rev.pop().unwrap();
        assert(t == ts[i as int]);
        let ghost tail = tv.subrange(i as int, n as int);
        assert(tail[0] == t@);
        assert(tail.drop_first() =~= tv.subrange(i + 1, n as int));
        let ghost out0 = output@;
        let ghost st0 = op_stack@;
        match t {
            Token::Number(_) => {
                output.push(t);
                proof {
                    lemma_view_push(out0, t);
                }
            },
            Token::Operator(op1) => {
                pop_operators(op1, &mut output, &mut op_stack);
                let ghost st1 = op_stack@;
                op_stack.push(t);
                proof {
                    lemma_view_push(st1, t);
                }
            },
            Token::LParen => {
                op_stack.push(t);
                proof {
                    lemma_view_push(st0, t);
                }
            },
            Token::RParen => {
                close_parenthesis(&mut output, &mut op_stack);
            },
        }
        i = i + 1;
    }
    assert(tv.subrange(n as int, n as int) =~= seq![]);
    while op_stack.len() > 0
        invariant
            postfix(tv) == drain(tokens_view(output@), tokens_view(op_stack@)),
        decreases op_stack@.len(),
    {
        let ghost out0 = output@;
        let ghost st0 = op_stack@;
        let top = op_stack.pop().unwrap();
        output.push(top);
        proof {
            lemma_view_push(out0, top);
            lemma_view_drop_last(st0);
        }
    }
    output
}

fn pop_operators(op1: char, output: &mut Vec<Token>, op_stack: &mut Vec<Token>)
    ensures
        (tokens_view(final(output)@), tokens_view(final(op_stack)@)) == pop_ops(
            op1,
            tokens_view(old(output)@),
            tokens_view(old(op_stack)@),
        ),
{
    let p1 = precedence(op1);
    let right = is_right_associative(op1);
    let ghost goal = pop_ops(op1, tokens_view(output@), tokens_view(op_stack@));
    while op_stack.len() > 0
        invariant
            p1 == spec_precedence(op1),
            right == spec_right_assoc(op1),
            goal == pop_ops(op1, tokens_view(output@), tokens_view(op_stack@)),
        ensures
            goal == (tokens_view(output@), tokens_view(op_stack@)),
        decreases op_stack@.len(),
    {
        let last = op_stack.len() - 1;
        proof {
            lemma_view_drop_last(op_stack@);
        }
        let moves = match &op_stack[last] {
            Token::Operator(op2) => {
                let p2 = precedence(*op2);
                p2 > p1 || (p2 == p1 && !right)
            },
            _ => false,
        };
        if !moves {
            assert(pop_ops(op1, tokens_view(output@), tokens_view(op_stack@)) == (
                tokens_view(output@),
                tokens_view(op_stack@),
            ));
            break;
        }
        let ghost out0 = output@;
        let top = op_stack.pop().unwrap();
        output.push(top);
        proof {
            lemma_view_push(out0, top);
        }
    }
}

fn close_parenthesis(output: &mut Vec<Token>, op_stack: &mut Vec<Token>)
    ensures
        (tokens_view(final(output)@), tokens_view(final(op_stack)@)) == close_group(
            tokens_view(old(output)@),
            tokens_view(old(op_stack)@),
        ),
{
    let ghost goal = close_group(tokens_view(output@), tokens_view(op_stack@));
    while op_stack.len() > 0
        invariant
            goal == close_group(tokens_view(old(output)@), tokens_view(old(op_stack)@)),
            goal == close_group(tokens_view(output@), tokens_view(op_stack@)),
        decreases op_stack@.len(),
    {
        let ghost out0 = output@;
        let ghost st0 = op_stack@;
        proof {
            lemma_view_drop_last(st0);
        }
        let top = op_stack.pop().unwrap();
        if let Token::LParen = top {
            assert(tokens_view(st0).last() is LParen);
            assert(goal == (tokens_view(out0), tokens_view(st0).drop_last()));
            return;
        }
        output.push(top);
        proof {
            lemma_view_push(out0, top);
        }
    }
}

} // verus!
