use vstd::prelude::*;
use crate::token::{Token, TokenView, tokens_view};

verus! {

/// Why a character sequence could not be split into tokens.
#[derive(Debug, PartialEq, Eq)]
pub enum LexError {
    /// A character outside the expression alphabet, with its index.
    UnexpectedCharacter(char, usize),
    /// A numeric run that is not a decimal literal, such as `1.2.3` or `--5`.
    MalformedNumber(String),
}

/// The mathematical model of a [`LexError`].
pub enum LexErrorView {
    UnexpectedCharacter(char, nat),
    MalformedNumber(Seq<char>),
}

impl View for LexError {
    type V = LexErrorView;

    open spec fn view(&self) -> LexErrorView {
        match self {
            LexError::UnexpectedCharacter(c, i) => LexErrorView::UnexpectedCharacter(*c, *i as nat),
            LexError::MalformedNumber(s) => LexErrorView::MalformedNumber(s@),
        }
    }
}

/// The model of what [`tokenize`] returns.
pub open spec fn lex_result_view(r: Result<Vec<Token>, LexError>) -> Result<
    Seq<TokenView>,
    LexErrorView,
> {
    match r {
        Ok(ts) => Ok(tokens_view(ts@)),
        Err(e) => Err(e@),
    }
}

pub open spec fn is_digit(c: char) -> bool {
    '0' <= c <= '9'
}

/// The characters that carry the Unicode `White_Space` property, which is
/// what `char::is_whitespace` tests.
pub open spec fn is_white_space(c: char) -> bool {
    ||| '\u{9}' <= c <= '\u{d}'
    ||| c == ' '
    ||| c == '\u{85}'
    ||| c == '\u{a0}'
    ||| c == '\u{1680}'
    ||| '\u{2000}' <= c <= '\u{200a}'
    ||| c == '\u{2028}'
    ||| c == '\u{2029}'
    ||| c == '\u{202f}'
    ||| c == '\u{205f}'
    ||| c == '\u{3000}'
}

/// A run of digits and points that reads as one decimal number: at least one
/// digit, at most one point, nothing else.
pub open spec fn is_unsigned_decimal(b: Seq<char>) -> bool {
    &&& forall|k: int| 0 <= k < b.len() ==> is_digit(#[trigger] b[k]) || b[k] == '.'
    &&& forall|j: int, k: int|
        0 <= j < b.len() && 0 <= k < b.len() && #[trigger] b[j] == '.' && #[trigger] b[k] == '.'
            ==> j == k
    &&& exists|k: int| 0 <= k < b.len() && is_digit(#[trigger] b[k])
}

/// A decimal literal: an unsigned decimal with an optional leading minus.
/// These are exactly the runs of digits, points and minus signs that
/// standard decimal floating-point parsing accepts.
pub open spec fn is_decimal_literal(b: Seq<char>) -> bool {
    if b.len() > 0 && b[0] == '-' {
        is_unsigned_decimal(b.drop_first())
    } else {
        is_unsigned_decimal(b)
    }
}

/// Ends a pending numeric run: nothing when the run is empty, a `Number`
/// when it is a decimal literal, an error otherwise.
pub open spec fn flush_spec(out: Seq<TokenView>, buf: Seq<char>) -> Result<
    Seq<TokenView>,
    LexErrorView,
> {
    if buf.len() == 0 {
        Ok(out)
    } else if is_decimal_literal(buf) {
        Ok(out.push(TokenView::Number(buf)))
    } else {
        Err(LexErrorView::MalformedNumber(buf))
    }
}

/// One character `c`, found at index `pos`, read by the lexer in a state made
/// of the tokens emitted so far, the pending numeric run, and whether a `-`
/// here would be a sign (true at the start, after an operator and after `(`).
pub open spec fn lex_char(c: char, pos: nat, out: Seq<TokenView>, buf: Seq<char>, unary: bool) -> Result<
    (Seq<TokenView>, Seq<char>, bool),
    LexErrorView,
> {
    if is_digit(c) || c == '.' {
        Ok((out, buf.push(c), false))
    } else if c == '-' && unary {
        Ok((out, buf.push(c), true))
    } else if c == '-' || c == '+' || c == '*' || c == '/' || c == '^' {
        match flush_spec(out, buf) {
            Ok(o) => Ok((o.push(TokenView::Operator(c)), seq![], true)),
            Err(e) => Err(e),
        }
    } else if c == '(' {
        Ok((out.push(TokenView::LParen), buf, true))
    } else if c == ')' {
        match flush_spec(out, buf) {
            Ok(o) => Ok((o.push(TokenView::RParen), seq![], false)),
            Err(e) => Err(e),
        }
    } else if is_white_space(c) {
        Ok((out, buf, unary))
    } else {
        Err(LexErrorView::UnexpectedCharacter(c, pos))
    }
}

/// The lexer run over `cs`, whose first character stands at index `pos`,
/// without the final flush.
pub open spec fn lex_steps(cs: Seq<char>, pos: nat, out: Seq<TokenView>, buf: Seq<char>, unary: bool) -> Result<
    (Seq<TokenView>, Seq<char>, bool),
    LexErrorView,
>
    decreases cs.len(),
{
    if cs.len() == 0 {
        Ok((out, buf, unary))
    } else {
        match lex_char(cs[0], pos, out, buf, unary) {
            Ok((o, b, u)) => lex_steps(cs.drop_first(), pos + 1, o, b, u),
            Err(e) => Err(e),
        }
    }
}

/// The token sequence of a whole input, or the first lexical error in it.
pub open spec fn lex(s: Seq<char>) -> Result<Seq<TokenView>, LexErrorView> {
    match lex_steps(s, 0, seq![], seq![], true) {
        Ok((o, b, _)) => flush_spec(o, b),
        Err(e) => Err(e),
    }
}

/// The characters of a string, in order.
pub fn split(s: String) -> (r: Vec<char>)
    ensures
        r@ == s@,
{
    let mut out: Vec<char> = Vec::new();
    let n = s.as_str().unicode_len();
    let mut i: usize = 0;
    while i < n
        invariant
            n == s@.len(),
            i <= n,
            out@ == s@.subrange(0, i as int),
        decreases n - i,
    {
        let c = s.as_str().get_char(i);
        out.push(c);
        i = i + 1;
        assert(out@ =~= s@.subrange(0, i as int));
    }
    assert(out@ =~= s@);
    out
}

fn is_digit_char(c: char) -> (r: bool)
    ensures
        r == is_digit(c),
{
    '0' <= c && c <= '9'
}

fn is_white_space_char(c: char) -> (r: bool)
    ensures
        r == is_white_space(c),
{
    ('\u{9}' <= c && c <= '\u{d}') || c == ' ' || c == '\u{85}' || c == '\u{a0}' || c
        == '\u{1680}' || ('\u{2000}' <= c && c <= '\u{200a}') || c == '\u{2028}' || c
        == '\u{2029}' || c == '\u{202f}' || c == '\u{205f}' || c == '\u{3000}'
}

/// Relies on `String::push`: appends one character at the end.
#[verifier::external_body]
fn push_char(s: &mut String, c: char)
    ensures
        final(s)@ == old(s)@.push(c),
{
    s.push(c);
}

/// Whether a run of characters, starting at `start`, is an unsigned decimal.
fn unsigned_decimal_from(b: &Vec<char>, start: usize) -> (r: bool)
    requires
        start <= b@.len(),
    ensures
        r == is_unsigned_decimal(b@.subrange(start as int, b@.len() as int)),
{
    let ghost t = b@.subrange(start as int, b@.len() as int);
    let mut i: usize = start;
    let mut points: usize = 0;
    let mut digits: bool = false;
    let ghost mut point_at: int = 0;
    while i < b.len()
        invariant
            start <= i <= b@.len(),
            t == b@.subrange(start as int, b@.len() as int),
            forall|k: int| 0 <= k < i - start ==> is_digit(#[trigger] t[k]) || t[k] == '.',
            points <= 1,
            points == 0 ==> forall|k: int| 0 <= k < i - start ==> #[trigger] t[k] != '.',
            points == 1 ==> 0 <= point_at < i - start && t[point_at] == '.' && forall|k: int|
                0 <= k < i - start && #[trigger] t[k] == '.' ==> k == point_at,
            digits <==> exists|k: int| 0 <= k < i - start && is_digit(#[trigger] t[k]),
        decreases b@.len() - i,
    {
        let c = b[i];
        assert(t[i - start] == c);
        if is_digit_char(c) {
            digits = true;
        } else if c == '.' {
            if points == 1 {
                assert(t[point_at] == '.' && t[i - start] == '.');
                return false;
            }
            points = 1;
            proof {
                point_at = i - start;
            }
        } else {
            assert(!(is_digit(t[i - start]) || t[i - start] == '.'));
            return false;
        }
        i = i + 1;
    }
    digits
}

/// Whether a numeric run is a decimal literal.
fn decimal_literal(b: &Vec<char>) -> (r: bool)
    ensures
        r == is_decimal_literal(b@),
{
    if b.len() > 0 && b[0] == '-' {
        assert(b@.drop_first() =~= b@.subrange(1, b@.len() as int));
        unsigned_decimal_from(b, 1)
    } else {
        assert(b@ =~= b@.subrange(0, b@.len() as int));
        unsigned_decimal_from(b, 0)
    }
}

/// The string holding the characters of `b`.
fn string_of(b: &Vec<char>) -> (r: String)
    ensures
        r@ == b@,
{
    let mut s = String::new();
    let mut i: usize = 0;
    while i < b.len()
        invariant
            i <= b@.len(),
            s@ == b@.subrange(0, i as int),
        decreases b@.len() - i,
    {
        push_char(&mut s, b[i]);
        i = i + 1;
        assert(s@ =~= b@.subrange(0, i as int));
    }
    assert(s@ =~= b@);
    s
}

/// Ends the pending numeric run `buf`, emitting its `Number` token into
/// `out` and emptying it, or reporting it as malformed.
fn flush(out: &mut Vec<Token>, buf: &mut Vec<char>) -> (r: Result<(), LexError>)
    ensures
        match flush_spec(tokens_view(old(out)@), old(buf)@) {
            Ok(o) => r is Ok && tokens_view(final(out)@) == o && final(buf)@.len() == 0,
            Err(e) => r matches Err(x) && x@ == e,
        },
{
    if buf.len() == 0 {
        return Ok(());
    }
    let text = string_of(buf);
    if decimal_literal(buf) {
        let ghost before = out@;
        out.push(Token::Number(text));
        assert(tokens_view(out@) =~= tokens_view(before).push(TokenView::Number(buf@)));
        buf.clear();
        Ok(())
    } else {
        Err(LexError::MalformedNumber(text))
    }
}

/// Splits a character sequence into tokens.
///
/// Digits and points gather into a numeric run; a `-` where an operand is
/// expected joins the run as its sign, elsewhere it is subtraction; `+ * / ^`
/// and `)` end the run; `(` does not; whitespace is skipped without ending
/// it. A run ends as a `Number` token when it is a decimal literal and as
/// [`LexError::MalformedNumber`] otherwise; any character outside the
/// alphabet gives [`LexError::UnexpectedCharacter`] with its index.
pub fn tokenize(chars: &Vec<char>) -> (r: Result<Vec<Token>, LexError>)
    ensures
        lex_result_view(r) == lex(chars@),
{
    let ghost s = chars@;
    let mut out: Vec<Token> = Vec::new();
    let mut buf: Vec<char> = Vec::new();
    let mut unary: bool = true;
    let mut i: usize = 0;
    assert(tokens_view(out@) =~= seq![]);
    assert(s.subrange(0, s.len() as int) =~= s);
    while i < chars.len()
        invariant
            s == chars@,
            i <= s.len(),
            lex_steps(s, 0, seq![], seq![], true) == lex_steps(
                s.subrange(i as int, s.len() as int),
                i as nat,
                tokens_view(out@),
                buf@,
                unary,
            ),
        decreases s.len() - i,
    {
        let c = chars[i];
        let ghost tail = s.subrange(i as int, s.len() as int);
        assert(tail[0] == c);
        assert(tail.drop_first() =~= s.subrange(i + 1, s.len() as int));
        let ghost before = out@;
        if is_digit_char(c) || c == '.' {
            buf.push(c);
            unary = false;
        } else if c == '-' && unary {
            buf.push(c);
        } else if c == '-' || c == '+' || c == '*' || c == '/' || c == '^' {
            match flush(&mut out, &mut buf) {
                Ok(()) => {},
                Err(e) => {
                    return Err(e);
                },
            }
            let ghost mid = out@;
            out.push(Token::Operator(c));
            assert(tokens_view(out@) =~= tokens_view(mid).push(TokenView::Operator(c)));
            assert(buf@ =~= seq![]);
            unary = true;
        } else if c == '(' {
            out.push(Token::LParen);
            assert(tokens_view(out@) =~= tokens_view(before).push(TokenView::LParen));
            unary = true;
        } else if c == ')' {
            match flush(&mut out, &mut buf) {
                Ok(()) => {},
                Err(e) => {
                    return Err(e);
                },
            }
            let ghost mid = out@;
            out.push(Token::RParen);
            assert(tokens_view(out@) =~= tokens_view(mid).push(TokenView::RParen));
            assert(buf@ =~= seq![]);
            unary = false;
        } else if is_white_space_char(c) {
        } else {
            return Err(LexError::UnexpectedCharacter(c, i));
        }
        i = i + 1;
    }
    assert(s.subrange(i as int, s.len() as int) =~= Seq::<char>::empty());
    match flush(&mut out, &mut buf) {
        Ok(()) => Ok(out),
        Err(e) => Err(e),
    }
}

} // verus!
