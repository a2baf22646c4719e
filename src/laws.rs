use vstd::prelude::*;
use crate::token::{Token, TokenView, is_operator_symbol, spec_precedence, spec_right_assoc};
use crate::postfix::{yields_to, pop_ops, close_group, drain, shunt_step, shunt_steps, postfix};
use crate::eval::{ExprView, rpn, rpn_from};
use crate::lexer::{
    LexError,
    LexErrorView,
    lex,
    lex_result_view,
    lex_char,
    lex_steps,
    flush_spec,
    is_decimal_literal,
    is_digit,
};

verus! {

/// Every operator in the tree is one of `+ - * / ^`.
pub open spec fn is_valid_expr(e: ExprView) -> bool
    decreases e,
{
    match e {
        ExprView::Number(_) => true,
        ExprView::Binary(op, l, r) => is_operator_symbol(op) && is_valid_expr(*l) && is_valid_expr(
            *r,
        ),
    }
}

/// The postfix rendering of a tree: both operands, then the operator.
pub open spec fn postfix_of(e: ExprView) -> Seq<TokenView>
    decreases e,
{
    match e {
        ExprView::Number(s) => seq![TokenView::Number(s)],
        ExprView::Binary(op, l, r) => postfix_of(*l) + postfix_of(*r) + seq![
            TokenView::Operator(op),
        ],
    }
}

/// A left operand needs parentheses under `op` when it binds more loosely,
/// or equally loosely and `op` groups from the right.
pub open spec fn paren_left(op: char, l: ExprView) -> bool {
    l matches ExprView::Binary(op2, _, _) && (spec_precedence(op2) < spec_precedence(op) || (
    spec_precedence(op2) == spec_precedence(op) && spec_right_assoc(op)))
}

/// A right operand needs parentheses under `op` when it binds more loosely,
/// or equally loosely and `op` groups from the left.
pub open spec fn paren_right(op: char, r: ExprView) -> bool {
    r matches ExprView::Binary(op2, _, _) && (spec_precedence(op2) < spec_precedence(op) || (
    spec_precedence(op2) == spec_precedence(op) && !spec_right_assoc(op)))
}

/// The infix rendering of a tree with only the parentheses that precedence
/// and associativity make necessary.
pub open spec fn infix_of(e: ExprView) -> Seq<TokenView>
    decreases e,
{
    match e {
        ExprView::Number(s) => seq![TokenView::Number(s)],
        ExprView::Binary(op, l, r) => {
            let left = if paren_left(op, *l) {
                seq![TokenView::LParen] + infix_of(*l) + seq![TokenView::RParen]
            } else {
                infix_of(*l)
            };
            let right = if paren_right(op, *r) {
                seq![TokenView::LParen] + infix_of(*r) + seq![TokenView::RParen]
            } else {
                infix_of(*r)
            };
            left + seq![TokenView::Operator(op)] + right
        },
    }
}

/// The entries of a stack in the order they leave it, top first.
pub open spec fn pop_order(s: Seq<TokenView>) -> Seq<TokenView>
    decreases s.len(),
{
    if s.len() == 0 {
        seq![]
    } else {
        seq![s.last()] + pop_order(s.drop_last())
    }
}

/// The operators still stacked after the shunting-yard method has read the
/// infix rendering of `e`: those on its right spine outside parentheses.
pub open spec fn pending(e: ExprView) -> Seq<TokenView>
    decreases e,
{
    match e {
        ExprView::Number(_) => seq![],
        ExprView::Binary(op, l, r) => seq![TokenView::Operator(op)] + if paren_right(op, *r) {
            seq![]
        } else {
            pending(*r)
        },
    }
}

/// What the shunting-yard method has output after reading the infix
/// rendering of `e`.
pub open spec fn emitted(e: ExprView) -> Seq<TokenView>
    decreases e,
{
    match e {
        ExprView::Number(s) => seq![TokenView::Number(s)],
        ExprView::Binary(op, l, r) => postfix_of(*l) + if paren_right(op, *r) {
            postfix_of(*r)
        } else {
            emitted(*r)
        },
    }
}

/// Whether the operator on top of `stack` stays there when `op` arrives.
pub open spec fn stops(stack: Seq<TokenView>, op: char) -> bool {
    !(stack.len() > 0 && (stack.last() matches TokenView::Operator(op2) && yields_to(op2, op)))
}

/// Whether the top of `stack` stays there while the infix rendering of `e`
/// is read: it stays for every operator of `e` outside parentheses.
pub open spec fn guarded(stack: Seq<TokenView>, e: ExprView) -> bool
    decreases e,
{
    match e {
        ExprView::Number(_) => true,
        ExprView::Binary(op, l, r) => stops(stack, op) && (paren_left(op, *l) || guarded(stack, *l))
            && (paren_right(op, *r) || guarded(stack, *r)),
    }
}

/// Every entry is a valid operator of precedence at least `p`.
pub open spec fn operators_from(s: Seq<TokenView>, p: nat) -> bool {
    forall|k: int|
        0 <= k < s.len() ==> (#[trigger] s[k] matches TokenView::Operator(o) && is_operator_symbol(o)
            && spec_precedence(o) >= p)
}

pub open spec fn root_precedence(e: ExprView) -> nat {
    match e {
        ExprView::Number(_) => 4,
        ExprView::Binary(op, _, _) => spec_precedence(op),
    }
}

proof fn lemma_pending_operators(e: ExprView)
    requires
        is_valid_expr(e),
    ensures
        operators_from(pending(e), root_precedence(e)),
    decreases e,
{
    if let ExprView::Binary(op, l, r) = e {
        lemma_pending_operators(*r);
        let rest = if paren_right(op, *r) {
            seq![]
        } else {
            pending(*r)
        };
        assert(pending(e) == seq![TokenView::Operator(op)] + rest);
        assert forall|k: int| 0 <= k < pending(e).len() implies (#[trigger] pending(
            e,
        )[k] matches TokenView::Operator(o) && is_operator_symbol(o) && spec_precedence(o)
            >= spec_precedence(op)) by {
            if k > 0 {
                assert(pending(e)[k] == rest[k - 1]);
            }
        }
    }
}

proof fn lemma_guard_open(stack: Seq<TokenView>, e: ExprView)
    requires
        stack.len() == 0 || !(stack.last() is Operator),
    ensures
        guarded(stack, e),
    decreases e,
{
    if let ExprView::Binary(op, l, r) = e {
        lemma_guard_open(stack, *l);
        lemma_guard_open(stack, *r);
    }
}

proof fn lemma_guard_push(stack: Seq<TokenView>, op: char, e: ExprView)
    requires
        is_operator_symbol(op),
        is_valid_expr(e),
        e is Binary ==> root_precedence(e) > spec_precedence(op) || (root_precedence(e)
            == spec_precedence(op) && spec_right_assoc(op)),
    ensures
        guarded(stack.push(TokenView::Operator(op)), e),
    decreases e,
{
    if let ExprView::Binary(op2, l, r) = e {
        let st = stack.push(TokenView::Operator(op));
        assert(st.last() == TokenView::Operator(op));
        if !paren_left(op2, *l) {
            lemma_guard_push(stack, op, *l);
        }
        if !paren_right(op2, *r) {
            lemma_guard_push(stack, op, *r);
        }
    }
}

proof fn lemma_pop_all(op: char, out: Seq<TokenView>, stack: Seq<TokenView>, s: Seq<TokenView>)
    requires
        forall|k: int|
            0 <= k < s.len() ==> (#[trigger] s[k] matches TokenView::Operator(o) && yields_to(
                o,
                op,
            )),
    ensures
        pop_ops(op, out, stack + s) == pop_ops(op, out + pop_order(s), stack),
    decreases s.len(),
{
    if s.len() == 0 {
        assert(stack + s =~= stack);
        assert(out + pop_order(s) =~= out);
    } else {
        let st = stack + s;
        assert(st.last() == s.last());
        assert(st.drop_last() =~= stack + s.drop_last());
        lemma_pop_all(op, out.push(s.last()), stack, s.drop_last());
        assert(out.push(s.last()) + pop_order(s.drop_last()) =~= out + pop_order(s));
    }
}

proof fn lemma_close_all(out: Seq<TokenView>, stack: Seq<TokenView>, s: Seq<TokenView>)
    requires
        forall|k: int| 0 <= k < s.len() ==> #[trigger] s[k] is Operator,
    ensures
        close_group(out, stack.push(TokenView::LParen) + s) == (out + pop_order(s), stack),
    decreases s.len(),
{
    let st = stack.push(TokenView::LParen) + s;
    if s.len() == 0 {
        assert(st =~= stack.push(TokenView::LParen));
        assert(st.drop_last() =~= stack);
        assert(out + pop_order(s) =~= out);
    } else {
        assert(st.last() == s.last());
        assert(st.drop_last() =~= stack.push(TokenView::LParen) + s.drop_last());
        lemma_close_all(out.push(s.last()), stack, s.drop_last());
        assert(out.push(s.last()) + pop_order(s.drop_last()) =~= out + pop_order(s));
    }
}

proof fn lemma_drain_all(out: Seq<TokenView>, s: Seq<TokenView>)
    ensures
        drain(out, s) == out + pop_order(s),
    decreases s.len(),
{
    if s.len() == 0 {
        assert(out + pop_order(s) =~= out);
    } else {
        lemma_drain_all(out.push(s.last()), s.drop_last());
        assert(out.push(s.last()) + pop_order(s.drop_last()) =~= out + pop_order(s));
    }
}

proof fn lemma_steps_append(
    x: Seq<TokenView>,
    y: Seq<TokenView>,
    out: Seq<TokenView>,
    stack: Seq<TokenView>,
)
    ensures
        shunt_steps(x + y, out, stack) == ({
            let (o, s) = shunt_steps(x, out, stack);
            shunt_steps(y, o, s)
        }),
    decreases x.len(),
{
    if x.len() == 0 {
        assert(x + y =~= y);
    } else {
        assert((x + y)[0] == x[0]);
        assert((x + y).drop_first() =~= x.drop_first() + y);
        let (o, s) = shunt_step(out, stack, x[0]);
        lemma_steps_append(x.drop_first(), y, o, s);
    }
}

proof fn lemma_emitted_pending(e: ExprView)
    ensures
        emitted(e) + pop_order(pending(e)) == postfix_of(e),
    decreases e,
{
    match e {
        ExprView::Number(s) => {
            assert(emitted(e) + pop_order(pending(e)) =~= postfix_of(e));
        },
        ExprView::Binary(op, l, r) => {
            lemma_emitted_pending(*r);
            let rest = if paren_right(op, *r) {
                seq![]
            } else {
                pending(*r)
            };
            let p = seq![TokenView::Operator(op)] + rest;
            assert(p =~= rest.insert(0, TokenView::Operator(op)));
            lemma_pop_order_front(TokenView::Operator(op), rest);
            if paren_right(op, *r) {
                assert(pop_order(rest) =~= seq![]);
            }
            assert(emitted(e) + pop_order(pending(e)) =~= postfix_of(e));
        },
    }
}

proof fn lemma_pop_order_front(t: TokenView, s: Seq<TokenView>)
    ensures
        pop_order(seq![t] + s) == pop_order(s).push(t),
    decreases s.len(),
{
    let x = seq![t] + s;
    if s.len() == 0 {
        assert(x.drop_last() =~= Seq::<TokenView>::empty());
        assert(pop_order(Seq::<TokenView>::empty()) == Seq::<TokenView>::empty());
        assert(x.last() == t);
        assert(pop_order(x) == seq![t] + Seq::<TokenView>::empty());
        assert(pop_order(x) =~= pop_order(s).push(t));
    } else {
        assert(x.last() == s.last());
        assert(x.drop_last() =~= seq![t] + s.drop_last());
        lemma_pop_order_front(t, s.drop_last());
        assert(pop_order(x) == seq![s.last()] + pop_order(s.drop_last()).push(t));
        assert(pop_order(s) == seq![s.last()] + pop_order(s.drop_last()));
        assert(pop_order(x) =~= pop_order(s).push(t));
    }
}

proof fn lemma_steps_single(t: TokenView, out: Seq<TokenView>, stack: Seq<TokenView>)
    ensures
        shunt_steps(seq![t], out, stack) == shunt_step(out, stack, t),
{
    let x = seq![t];
    assert(x[0] == t);
    assert(x.drop_first() =~= Seq::<TokenView>::empty());
    let (o, s) = shunt_step(out, stack, t);
    assert(shunt_steps(x.drop_first(), o, s) == (o, s));
}

/// Reading the infix rendering of `e` outputs `emitted(e)` and leaves
/// `pending(e)` above the stack it started from.
proof fn lemma_shunt_infix(e: ExprView, out: Seq<TokenView>, stack: Seq<TokenView>)
    requires
        is_valid_expr(e),
        guarded(stack, e),
    ensures
        shunt_steps(infix_of(e), out, stack) == (out + emitted(e), stack + pending(e)),
    decreases e,
{
    match e {
        ExprView::Number(n) => {
            let t = TokenView::Number(n);
            lemma_steps_single(t, out, stack);
            assert(out + emitted(e) =~= out.push(t));
            assert(stack + pending(e) =~= stack);
        },
        ExprView::Binary(op, l, r) => {
            let l = *l;
            let r = *r;
            let lp = TokenView::LParen;
            let rp = TokenView::RParen;
            let ot = TokenView::Operator(op);
            let left = if paren_left(op, l) {
                seq![lp] + infix_of(l) + seq![rp]
            } else {
                infix_of(l)
            };
            let right = if paren_right(op, r) {
                seq![lp] + infix_of(r) + seq![rp]
            } else {
                infix_of(r)
            };
            assert(infix_of(e) == left + seq![ot] + right);
            lemma_steps_append(left + seq![ot], right, out, stack);
            lemma_steps_append(left, seq![ot], out, stack);
            // the left operand
            let out1 = out + postfix_of(l);
            if paren_left(op, l) {
                lemma_steps_append(seq![lp] + infix_of(l), seq![rp], out, stack);
                lemma_steps_append(seq![lp], infix_of(l), out, stack);
                lemma_steps_single(lp, out, stack);
                let st = stack.push(lp);
                lemma_guard_open(st, l);
                lemma_shunt_infix(l, out, st);
                lemma_steps_single(rp, out + emitted(l), st + pending(l));
                lemma_pending_operators(l);
                lemma_close_all(out + emitted(l), stack, pending(l));
                lemma_emitted_pending(l);
                assert(out + emitted(l) + pop_order(pending(l)) =~= out1);
                assert(shunt_steps(left, out, stack) == (out1, stack));
            } else {
                lemma_shunt_infix(l, out, stack);
            }
            // the operator
            let (o2, s2) = shunt_steps(left, out, stack);
            if paren_left(op, l) {
                assert(pop_ops(op, o2, s2) == (o2, s2));
            } else {
                lemma_pending_operators(l);
                assert forall|k: int| 0 <= k < pending(l).len() implies (#[trigger] pending(
                    l,
                )[k] matches TokenView::Operator(o) && yields_to(o, op)) by {
                    assert(pending(l)[k] matches TokenView::Operator(o) && is_operator_symbol(o)
                        && spec_precedence(o) >= root_precedence(l));
                }
                lemma_pop_all(op, out + emitted(l), stack, pending(l));
                lemma_emitted_pending(l);
                assert(out + emitted(l) + pop_order(pending(l)) =~= out1);
            }
            lemma_steps_single(ot, o2, s2);
            assert(shunt_steps(left + seq![ot], out, stack) == (out1, stack.push(ot)));
            // the right operand
            let st = stack.push(ot);
            if paren_right(op, r) {
                lemma_steps_append(seq![lp] + infix_of(r), seq![rp], out1, st);
                lemma_steps_append(seq![lp], infix_of(r), out1, st);
                lemma_steps_single(lp, out1, st);
                lemma_guard_open(st.push(lp), r);
                lemma_shunt_infix(r, out1, st.push(lp));
                lemma_steps_single(rp, out1 + emitted(r), st.push(lp) + pending(r));
                lemma_pending_operators(r);
                lemma_close_all(out1 + emitted(r), st, pending(r));
                lemma_emitted_pending(r);
                assert(out1 + emitted(r) + pop_order(pending(r)) =~= out + emitted(e));
                assert(st =~= stack + pending(e));
            } else {
                lemma_guard_push(stack, op, r);
                lemma_shunt_infix(r, out1, st);
                assert(out1 + emitted(r) =~= out + emitted(e));
                assert(st + pending(r) =~= stack + pending(e));
            }
            assert(shunt_steps(right, out1, st) == (out + emitted(e), stack + pending(e)));
        },
    }
}

/// Running the postfix rendering of `e` pushes `e` on the value stack.
proof fn lemma_rpn_postfix(e: ExprView, rest: Seq<TokenView>, stack: Seq<ExprView>)
    requires
        is_valid_expr(e),
    ensures
        rpn_from(postfix_of(e) + rest, stack) == rpn_from(rest, stack.push(e)),
    decreases e,
{
    match e {
        ExprView::Number(n) => {
            let x = postfix_of(e) + rest;
            assert(x[0] == TokenView::Number(n));
            assert(x.drop_first() =~= rest);
        },
        ExprView::Binary(op, l, r) => {
            let ot = TokenView::Operator(op);
            let tail = seq![ot] + rest;
            assert(postfix_of(e) + rest =~= postfix_of(*l) + (postfix_of(*r) + tail));
            lemma_rpn_postfix(*l, postfix_of(*r) + tail, stack);
            lemma_rpn_postfix(*r, tail, stack.push(*l));
            let st = stack.push(*l).push(*r);
            assert(tail[0] == ot);
            assert(tail.drop_first() =~= rest);
            assert(st.subrange(0, st.len() - 2) =~= stack);
        },
    }
}

/// Precedence and associativity are respected end to end: an expression
/// written with only the parentheses that precedence and associativity make
/// necessary is reordered into postfix form and folded back into exactly the
/// tree it was written from.
pub proof fn lemma_infix_round_trip(e: ExprView)
    requires
        is_valid_expr(e),
    ensures
        postfix(infix_of(e)) == postfix_of(e),
        rpn(postfix(infix_of(e))) == Ok::<ExprView, crate::eval::EvalError>(e),
{
    let empty = Seq::<TokenView>::empty();
    lemma_guard_open(empty, e);
    lemma_shunt_infix(e, empty, empty);
    assert(empty + emitted(e) =~= emitted(e));
    assert(empty + pending(e) =~= pending(e));
    lemma_drain_all(emitted(e), pending(e));
    lemma_emitted_pending(e);
    lemma_rpn_postfix(e, empty, Seq::<ExprView>::empty());
    assert(postfix_of(e) + empty =~= postfix_of(e));
    assert(Seq::<ExprView>::empty().push(e) =~= seq![e]);
}

/// Splitting a character sequence into tokens is a function of the
/// characters alone: two runs on the same input give the same tokens, or the
/// same error.
pub proof fn lemma_tokenize_deterministic(
    s: Seq<char>,
    r1: Result<Vec<Token>, LexError>,
    r2: Result<Vec<Token>, LexError>,
)
    requires
        lex_result_view(r1) == lex(s),
        lex_result_view(r2) == lex(s),
    ensures
        lex_result_view(r1) == lex_result_view(r2),
{
}

/// Every operator is one of `+ - * / ^` and every number a decimal literal.
pub open spec fn is_written_expr(e: ExprView) -> bool
    decreases e,
{
    match e {
        ExprView::Number(s) => is_decimal_literal(s),
        ExprView::Binary(op, l, r) => is_operator_symbol(op) && is_written_expr(*l)
            && is_written_expr(*r),
    }
}

/// The text of a tree, written with only the parentheses that precedence and
/// associativity make necessary, and no spaces.
pub open spec fn text_of(e: ExprView) -> Seq<char>
    decreases e,
{
    match e {
        ExprView::Number(s) => s,
        ExprView::Binary(op, l, r) => {
            let left = if paren_left(op, *l) {
                seq!['('] + text_of(*l) + seq![')']
            } else {
                text_of(*l)
            };
            let right = if paren_right(op, *r) {
                seq!['('] + text_of(*r) + seq![')']
            } else {
                text_of(*r)
            };
            left + seq![op] + right
        },
    }
}

proof fn lemma_written_valid(e: ExprView)
    requires
        is_written_expr(e),
    ensures
        is_valid_expr(e),
    decreases e,
{
    if let ExprView::Binary(_, l, r) = e {
        lemma_written_valid(*l);
        lemma_written_valid(*r);
    }
}

proof fn lemma_lex_append(
    x: Seq<char>,
    y: Seq<char>,
    pos: nat,
    out: Seq<TokenView>,
    buf: Seq<char>,
    unary: bool,
)
    ensures
        lex_steps(x + y, pos, out, buf, unary) == (match lex_steps(x, pos, out, buf, unary) {
            Ok((o, b, u)) => lex_steps(y, pos + x.len(), o, b, u),
            Err(e) => Err(e),
        }),
    decreases x.len(),
{
    if x.len() == 0 {
        assert(x + y =~= y);
    } else {
        assert((x + y)[0] == x[0]);
        assert((x + y).drop_first() =~= x.drop_first() + y);
        if let Ok((o, b, u)) = lex_char(x[0], pos, out, buf, unary) {
            lemma_lex_append(x.drop_first(), y, pos + 1, o, b, u);
        }
    }
}

proof fn lemma_lex_single(c: char, pos: nat, out: Seq<TokenView>, buf: Seq<char>, unary: bool)
    ensures
        lex_steps(seq![c], pos, out, buf, unary) == lex_char(c, pos, out, buf, unary),
{
    let x = seq![c];
    assert(x[0] == c);
    assert(x.drop_first() =~= Seq::<char>::empty());
    if let Ok((o, b, u)) = lex_char(c, pos, out, buf, unary) {
        assert(lex_steps(Seq::<char>::empty(), pos + 1, o, b, u) == Ok::<_, LexErrorView>(
            (o, b, u),
        ));
    }
}

proof fn lemma_lex_literal_prefix(s: Seq<char>, pos: nat, out: Seq<TokenView>, k: nat)
    requires
        k <= s.len(),
        forall|j: int|
            0 <= j < s.len() && (j > 0 || !(s.len() > 0 && s[0] == '-')) ==> is_digit(
                #[trigger] s[j],
            ) || s[j] == '.',
    ensures
        lex_steps(s.take(k as int), pos, out, Seq::<char>::empty(), true) == Ok::<_, LexErrorView>(
            (out, s.take(k as int), k == 0 || (k == 1 && s[0] == '-')),
        ),
    decreases k,
{
    if k == 0 {
        assert(s.take(0) =~= Seq::<char>::empty());
    } else {
        let j = (k - 1) as nat;
        lemma_lex_literal_prefix(s, pos, out, j);
        let c = s[j as int];
        let signed = s[0] == '-';
        assert(s.take(k as int) =~= s.take(j as int) + seq![c]);
        lemma_lex_append(s.take(j as int), seq![c], pos, out, Seq::<char>::empty(), true);
        lemma_lex_single(c, pos + j, out, s.take(j as int), j == 0 || (j == 1 && signed));
        assert(s.take(j as int).push(c) =~= s.take(k as int));
    }
}

/// A decimal literal read where an operand is expected becomes the pending
/// numeric run.
proof fn lemma_lex_literal(s: Seq<char>, pos: nat, out: Seq<TokenView>)
    requires
        is_decimal_literal(s),
    ensures
        lex_steps(s, pos, out, Seq::<char>::empty(), true) == Ok::<_, LexErrorView>(
            (out, s, false),
        ),
{
    let signed = s.len() > 0 && s[0] == '-';
    assert forall|k: int| 0 <= k < s.len() && (k > 0 || !signed) implies is_digit(#[trigger] s[k])
        || s[k] == '.' by {
        if signed {
            assert(s[k] == s.drop_first()[k - 1]);
        }
    }
    lemma_lex_literal_prefix(s, pos, out, s.len());
    assert(s.take(s.len() as int) =~= s);
    if signed {
        let b = s.drop_first();
        let j = choose|j: int| 0 <= j < b.len() && is_digit(#[trigger] b[j]);
        assert(s.len() >= 2);
    } else {
        let j = choose|j: int| 0 <= j < s.len() && is_digit(#[trigger] s[j]);
        assert(s.len() >= 1);
    }
}

/// Reading `(`, a part whose tokens are `ts`, and `)` outputs the group whole.
proof fn lemma_lex_group(
    x: Seq<char>,
    ts: Seq<TokenView>,
    pos: nat,
    out: Seq<TokenView>,
    o: Seq<TokenView>,
    b: Seq<char>,
)
    requires
        lex_steps(x, pos + 1, out.push(TokenView::LParen), seq![], true) == Ok::<_, LexErrorView>(
            (o, b, false),
        ),
        flush_spec(o, b) == Ok::<_, LexErrorView>(out.push(TokenView::LParen) + ts),
    ensures
        lex_steps(seq!['('] + x + seq![')'], pos, out, seq![], true) == Ok::<_, LexErrorView>(
            (out + (seq![TokenView::LParen] + ts + seq![TokenView::RParen]), Seq::<char>::empty(), false),
        ),
{
    lemma_lex_append(seq!['('] + x, seq![')'], pos, out, seq![], true);
    lemma_lex_append(seq!['('], x, pos, out, seq![], true);
    lemma_lex_single('(', pos, out, seq![], true);
    lemma_lex_single(')', pos + 1 + x.len(), o, b, false);
    assert((out.push(TokenView::LParen) + ts).push(TokenView::RParen) =~= out + (seq![
        TokenView::LParen,
    ] + ts + seq![TokenView::RParen]));
}

/// Reading the text of `e` where an operand is expected leaves a state whose
/// flush outputs exactly the infix rendering of `e`.
proof fn lemma_lex_text(e: ExprView, pos: nat, out: Seq<TokenView>) -> (r: (
    Seq<TokenView>,
    Seq<char>,
))
    requires
        is_written_expr(e),
    ensures
        lex_steps(text_of(e), pos, out, seq![], true) == Ok::<_, LexErrorView>((r.0, r.1, false)),
        flush_spec(r.0, r.1) == Ok::<_, LexErrorView>(out + infix_of(e)),
    decreases e,
{
    match e {
        ExprView::Number(s) => {
            lemma_lex_literal(s, pos, out);
            assert(out.push(TokenView::Number(s)) =~= out + infix_of(e));
            (out, s)
        },
        ExprView::Binary(op, l, r) => {
            let l = *l;
            let r = *r;
            let lp = TokenView::LParen;
            let rp = TokenView::RParen;
            let lt = if paren_left(op, l) {
                seq!['('] + text_of(l) + seq![')']
            } else {
                text_of(l)
            };
            let rt = if paren_right(op, r) {
                seq!['('] + text_of(r) + seq![')']
            } else {
                text_of(r)
            };
            let lk = if paren_left(op, l) {
                seq![lp] + infix_of(l) + seq![rp]
            } else {
                infix_of(l)
            };
            let rk = if paren_right(op, r) {
                seq![lp] + infix_of(r) + seq![rp]
            } else {
                infix_of(r)
            };
            assert(text_of(e) == lt + seq![op] + rt);
            assert(infix_of(e) == lk + seq![TokenView::Operator(op)] + rk);
            // the left operand
            let (o1, b1) = if paren_left(op, l) {
                let (o, b) = lemma_lex_text(l, pos + 1, out.push(lp));
                lemma_lex_group(text_of(l), infix_of(l), pos, out, o, b);
                (out + lk, Seq::<char>::empty())
            } else {
                lemma_lex_text(l, pos, out)
            };
            assert(flush_spec(o1, b1) == Ok::<_, LexErrorView>(out + lk)) by {
                if paren_left(op, l) {
                    assert(out + lk + Seq::<TokenView>::empty() =~= out + lk);
                }
            };
            // the operator
            let p2 = pos + lt.len();
            let out2 = (out + lk).push(TokenView::Operator(op));
            lemma_lex_single(op, p2, o1, b1, false);
            assert(lex_char(op, p2, o1, b1, false) == Ok::<_, LexErrorView>((out2, Seq::<char>::empty(), true)));
            lemma_lex_append(lt, seq![op], pos, out, seq![], true);
            // the right operand
            let p3 = p2 + 1;
            let (o3, b3) = if paren_right(op, r) {
                let (o, b) = lemma_lex_text(r, p3 + 1, out2.push(lp));
                lemma_lex_group(text_of(r), infix_of(r), p3, out2, o, b);
                assert(flush_spec(out2 + rk, Seq::<char>::empty()) == Ok::<_, LexErrorView>(out2 + rk));
                (out2 + rk, Seq::<char>::empty())
            } else {
                lemma_lex_text(r, p3, out2)
            };
            lemma_lex_append(lt + seq![op], rt, pos, out, seq![], true);
            assert((lt + seq![op]).len() == lt.len() + 1);
            assert(out2 + rk =~= out + infix_of(e));
            (o3, b3)
        },
    }
}

/// The whole pipeline respects precedence and associativity: the text of
/// any tree of decimal literals and the five operators, written with only
/// the parentheses that precedence and associativity make necessary, is read
/// back as exactly that tree.
pub proof fn lemma_text_round_trip(e: ExprView)
    requires
        is_written_expr(e),
    ensures
        lex(text_of(e)) == Ok::<_, LexErrorView>(infix_of(e)),
        crate::pipeline::analyze(text_of(e)) == Ok::<_, crate::pipeline::CalcErrorView>(e),
{
    let empty = Seq::<TokenView>::empty();
    let (o, b) = lemma_lex_text(e, 0, empty);
    assert(empty + infix_of(e) =~= infix_of(e));
    lemma_written_valid(e);
    lemma_infix_round_trip(e);
}

} // verus!
