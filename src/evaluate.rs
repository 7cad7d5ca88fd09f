use crate::lexer::push_char;
use crate::parser::{decimal_digits, digit_char, lemma_digit_char, Expr};
use crate::token::TokenType;
use vstd::prelude::*;

verus! {

/// Why an expression has no value.
#[derive(Debug, PartialEq, Eq, Structural, Clone, Copy)]
pub enum EvalError {
    DivisionByZero,
    NegativeExponent,
    /// A value, final or intermediate, does not fit in `isize`.
    Overflow,
    /// An operator that the node's variant does not take.
    UnsupportedOperator,
}

pub open spec fn fits(v: int) -> bool {
    isize::MIN <= v <= isize::MAX
}

/// `v`, where it fits in `isize`.
pub open spec fn checked(v: int) -> Result<int, EvalError> {
    if fits(v) {
        Ok(v)
    } else {
        Err(EvalError::Overflow)
    }
}

/// Integer division truncating toward zero.
pub open spec fn trunc_div(x: int, d: int) -> int {
    if x == 0 {
        0
    } else if x > 0 && d > 0 {
        x / d
    } else if x < 0 && d < 0 {
        (-x) / (-d)
    } else if x < 0 {
        -((-x) / d)
    } else {
        -(x / (-d))
    }
}

/// `b` raised to the power `e`.
pub open spec fn pow_int(b: int, e: nat) -> int
    decreases e,
{
    if e == 0 {
        1
    } else {
        b * pow_int(b, (e - 1) as nat)
    }
}

/// The value of `op` on `l` and `r`.
pub open spec fn apply_binary(op: TokenType, l: int, r: int) -> Result<int, EvalError> {
    if op == TokenType::Plus {
        checked(l + r)
    } else if op == TokenType::Minus {
        checked(l - r)
    } else if op == TokenType::Star {
        checked(l * r)
    } else if op == TokenType::Slash {
        if r == 0 {
            Err(EvalError::DivisionByZero)
        } else {
            checked(trunc_div(l, r))
        }
    } else if op == TokenType::Power {
        if r < 0 {
            Err(EvalError::NegativeExponent)
        } else {
            checked(pow_int(l, r as nat))
        }
    } else {
        Err(EvalError::UnsupportedOperator)
    }
}

/// The value of an expression tree: left operand first, then right, then
/// the operator; the first error met is the result.
pub open spec fn eval_spec(e: Expr) -> Result<int, EvalError>
    decreases e,
{
    match e {
        Expr::Binary { left, op, right } => match eval_spec(*left) {
            Ok(l) => match eval_spec(*right) {
                Ok(r) => apply_binary(op, l, r),
                Err(err) => Err(err),
            },
            Err(err) => Err(err),
        },
        Expr::Unary { op, right } => match eval_spec(*right) {
            Ok(v) => if op == TokenType::Minus {
                checked(-v)
            } else if op == TokenType::Plus {
                Ok(v)
            } else {
                Err(EvalError::UnsupportedOperator)
            },
            Err(err) => Err(err),
        },
        Expr::Grouping(inner) => eval_spec(*inner),
        Expr::Int(v) => Ok(v as int),
    }
}

/// Whether `r` is the outcome `s`.
pub open spec fn same_outcome(r: Result<isize, EvalError>, s: Result<int, EvalError>) -> bool {
    match s {
        Ok(v) => r matches Ok(x) && x as int == v,
        Err(err) => r == Err::<isize, EvalError>(err),
    }
}

pub proof fn lemma_pow_unit(b: int, e: nat)
    requires
        -1 <= b <= 1,
    ensures
        b == 0 ==> pow_int(b, e) == if e == 0 {
            1int
        } else {
            0int
        },
        b == 1 ==> pow_int(b, e) == 1,
        b == -1 ==> pow_int(b, e) == if e % 2 == 0 {
            1int
        } else {
            -1int
        },
    decreases e,
{
    if e > 0 {
        lemma_pow_unit(b, (e - 1) as nat);
    }
}

/// Once a power of `b` (with `|b| >= 2`) leaves `isize`, every later power is
/// out of range too.
pub proof fn lemma_pow_stays_out(b: int, k: nat, e: nat)
    requires
        b <= -2 || b >= 2,
        k <= e,
        !fits(pow_int(b, k)),
    ensures
        !fits(pow_int(b, e)),
    decreases e - k,
{
    if k < e {
        let p = pow_int(b, k);
        let q = pow_int(b, k + 1);
        assert(q == b * p);
        assert(q > isize::MAX || q < isize::MIN - isize::MAX) by (nonlinear_arith)
            requires
                q == b * p,
                b <= -2 || b >= 2,
                p > isize::MAX || p < isize::MIN,
                isize::MIN == -isize::MAX - 1,
        ;
        lemma_pow_stays_out_far(b, k + 1, e);
    }
}

proof fn lemma_pow_stays_out_far(b: int, k: nat, e: nat)
    requires
        b <= -2 || b >= 2,
        k <= e,
        pow_int(b, k) > isize::MAX || pow_int(b, k) < isize::MIN - isize::MAX,
    ensures
        !fits(pow_int(b, e)),
    decreases e - k,
{
    if k < e {
        let p = pow_int(b, k);
        let q = pow_int(b, k + 1);
        assert(q == b * p);
        assert(q > isize::MAX || q < isize::MIN - isize::MAX) by (nonlinear_arith)
            requires
                q == b * p,
                b <= -2 || b >= 2,
                p > isize::MAX || p < isize::MIN - isize::MAX,
                isize::MIN == -isize::MAX - 1,
        ;
        lemma_pow_stays_out_far(b, k + 1, e);
    }
}

/// `b` raised to the power `e`, by repeated multiplication.
fn power(b: isize, e: isize) -> (r: Result<isize, EvalError>)
    ensures
        same_outcome(r, apply_binary(TokenType::Power, b as int, e as int)),
{
    if e < 0 {
        return Err(EvalError::NegativeExponent);
    }
    if b == 0 || b == 1 || b == -1 {
        proof {
            lemma_pow_unit(b as int, e as nat);
        }
        if b == 0 {
            return if e == 0 { Ok(1) } else { Ok(0) };
        } else if b == 1 {
            return Ok(1);
        } else {
            return if e % 2 == 0 { Ok(1) } else { Ok(-1) };
        }
    }
    let mut acc: isize = 1;
    let mut i: isize = 0;
    while i < e
        invariant
            0 <= i <= e,
            b <= -2 || b >= 2,
            acc as int == pow_int(b as int, i as nat),
        decreases e - i,
    {
        match acc.checked_mul(b) {
            Some(v) => {
                assert(pow_int(b as int, (i + 1) as nat) == b * pow_int(b as int, i as nat));
                acc = v;
            },
            None => {
                proof {
                    assert(pow_int(b as int, (i + 1) as nat) == b * pow_int(b as int, i as nat));
                    lemma_pow_stays_out(b as int, (i + 1) as nat, e as nat);
                }
                return Err(EvalError::Overflow);
            },
        }
        i = i + 1;
    }
    Ok(acc)
}

/// The value of `op` on `l` and `r`, as `apply_binary` describes.
fn apply(op: TokenType, l: isize, r: isize) -> (res: Result<isize, EvalError>)
    ensures
        same_outcome(res, apply_binary(op, l as int, r as int)),
{
    match op {
        TokenType::Plus => match l.checked_add(r) {
            Some(v) => Ok(v),
            None => Err(EvalError::Overflow),
        },
        TokenType::Minus => match l.checked_sub(r) {
            Some(v) => Ok(v),
            None => Err(EvalError::Overflow),
        },
        TokenType::Star => match l.checked_mul(r) {
            Some(v) => Ok(v),
            None => Err(EvalError::Overflow),
        },
        TokenType::Slash => {
            if r == 0 {
                Err(EvalError::DivisionByZero)
            } else {
                match l.checked_div(r) {
                    Some(v) => Ok(v),
                    None => Err(EvalError::Overflow),
                }
            }
        },
        TokenType::Power => power(l, r),
        _ => Err(EvalError::UnsupportedOperator),
    }
}

/// The value of the tree, as `eval_spec` describes.
pub fn evaluate(expr: Expr) -> (r: Result<isize, EvalError>)
    ensures
        same_outcome(r, eval_spec(expr)),
    decreases expr,
{
    match expr {
        Expr::Binary { left, op, right } => {
            let left_value = match evaluate(*left) {
                Ok(v) => v,
                Err(err) => return Err(err),
            };
            let right_value = match evaluate(*right) {
                Ok(v) => v,
                Err(err) => return Err(err),
            };
            apply(op, left_value, right_value)
        },
        Expr::Unary { op, right } => {
            let value = match evaluate(*right) {
                Ok(v) => v,
                Err(err) => return Err(err),
            };
            match op {
                TokenType::Minus => match (0isize).checked_sub(value) {
                    Some(v) => Ok(v),
                    None => Err(EvalError::Overflow),
                },
                TokenType::Plus => Ok(value),
                _ => Err(EvalError::UnsupportedOperator),
            }
        },
        Expr::Grouping(inner) => evaluate(*inner),
        Expr::Int(value) => Ok(value),
    }
}

/// The decimal text of `v`, with a leading `-` when it is negative.
pub open spec fn int_text(v: int) -> Seq<char> {
    if v < 0 {
        "-"@ + decimal_digits((-v) as nat)
    } else {
        decimal_digits(v as nat)
    }
}

/// The symbol written for a binary operator; `?` for one that is not arithmetic.
pub open spec fn op_text(op: TokenType) -> Seq<char> {
    if op == TokenType::Plus {
        " +"@
    } else if op == TokenType::Minus {
        " -"@
    } else if op == TokenType::Star {
        " *"@
    } else if op == TokenType::Slash {
        " /"@
    } else if op == TokenType::Power {
        " ^"@
    } else {
        " ?"@
    }
}

/// The symbol written for a unary operator: `neg` for `-`, nothing for `+`.
pub open spec fn unary_text(op: TokenType) -> Seq<char> {
    if op == TokenType::Minus {
        " neg"@
    } else if op == TokenType::Plus {
        Seq::empty()
    } else {
        " ?"@
    }
}

/// The reverse-Polish text of a tree: operands before their operator, each
/// item after a space.
pub open spec fn rpn_text(e: Expr) -> Seq<char>
    decreases e,
{
    match e {
        Expr::Binary { left, op, right } => rpn_text(*left) + rpn_text(*right) + op_text(op),
        Expr::Unary { op, right } => rpn_text(*right) + unary_text(op),
        Expr::Grouping(inner) => rpn_text(*inner),
        Expr::Int(v) => " "@ + int_text(v as int),
    }
}

/// The fully parenthesised prefix text of a tree: each operation is `(`, its
/// operator, its operands, `)`.
pub open spec fn lisp_text(e: Expr) -> Seq<char>
    decreases e,
{
    match e {
        Expr::Binary { left, op, right } => "("@ + op_text(op) + lisp_text(*left) + lisp_text(
            *right,
        ) + ")"@,
        Expr::Unary { op, right } => if op == TokenType::Plus {
            lisp_text(*right)
        } else {
            "("@ + unary_text(op) + lisp_text(*right) + ")"@
        },
        Expr::Grouping(inner) => lisp_text(*inner),
        Expr::Int(v) => " "@ + int_text(v as int),
    }
}

fn push_str(out: &mut String, t: &str)
    ensures
        final(out)@ == old(out)@ + t@,
{
    let n = t.unicode_len();
    let mut i: usize = 0;
    while i < n
        invariant
            n == t@.len(),
            i <= n,
            out@ == old(out)@ + t@.subrange(0, i as int),
        decreases n - i,
    {
        push_char(out, t.get_char(i));
        i = i + 1;
        assert(out@ =~= old(out)@ + t@.subrange(0, i as int));
    }
    assert(t@.subrange(0, n as int) =~= t@);
}

fn digit(d: u64) -> (c: char)
    requires
        d < 10,
    ensures
        c == digit_char(d as nat),
{
    proof {
        lemma_digit_char(d as nat);
        let t = seq!['0', '1', '2', '3', '4', '5', '6', '7', '8', '9'];
        assert(t[0] == '0' && t[1] == '1' && t[2] == '2' && t[3] == '3' && t[4] == '4');
        assert(t[5] == '5' && t[6] == '6' && t[7] == '7' && t[8] == '8' && t[9] == '9');
    }
    if d == 0 {
        '0'
    } else if d == 1 {
        '1'
    } else if d == 2 {
        '2'
    } else if d == 3 {
        '3'
    } else if d == 4 {
        '4'
    } else if d == 5 {
        '5'
    } else if d == 6 {
        '6'
    } else if d == 7 {
        '7'
    } else if d == 8 {
        '8'
    } else {
        '9'
    }
}

fn push_digits(out: &mut String, n: u64)
    ensures
        final(out)@ == old(out)@ + decimal_digits(n as nat),
    decreases n,
{
    if n >= 10 {
        push_digits(out, n / 10);
    }
    let c = digit(n % 10);
    push_char(out, c);
    assert(final(out)@ =~= old(out)@ + decimal_digits(n as nat));
}

fn push_int(out: &mut String, v: isize)
    ensures
        final(out)@ == old(out)@ + int_text(v as int),
{
    if v < 0 {
        push_str(out, "-");
        let m: u64 = ((-(v + 1)) as u64) + 1;
        push_digits(out, m);
        assert(final(out)@ =~= old(out)@ + int_text(v as int));
    } else {
        push_digits(out, v as u64);
    }
}

fn push_op(out: &mut String, op: TokenType)
    ensures
        final(out)@ == old(out)@ + op_text(op),
{
    match op {
        TokenType::Plus => push_str(out, " +"),
        TokenType::Minus => push_str(out, " -"),
        TokenType::Star => push_str(out, " *"),
        TokenType::Slash => push_str(out, " /"),
        TokenType::Power => push_str(out, " ^"),
        _ => push_str(out, " ?"),
    }
}

fn push_unary(out: &mut String, op: TokenType)
    ensures
        final(out)@ == old(out)@ + unary_text(op),
{
    match op {
        TokenType::Minus => push_str(out, " neg"),
        TokenType::Plus => {
            assert(old(out)@ + unary_text(op) =~= old(out)@);
        },
        _ => push_str(out, " ?"),
    }
}

fn write_rpn(expr: &Expr, out: &mut String)
    ensures
        final(out)@ == old(out)@ + rpn_text(*expr),
    decreases expr,
{
    match expr {
        Expr::Binary { left, op, right } => {
            write_rpn(left, out);
            write_rpn(right, out);
            push_op(out, *op);
            assert(final(out)@ =~= old(out)@ + rpn_text(*expr));
        },
        Expr::Unary { op, right } => {
            write_rpn(right, out);
            push_unary(out, *op);
            assert(final(out)@ =~= old(out)@ + rpn_text(*expr));
        },
        Expr::Grouping(inner) => write_rpn(inner, out),
        Expr::Int(value) => {
            push_str(out, " ");
            push_int(out, *value);
            assert(final(out)@ =~= old(out)@ + rpn_text(*expr));
        },
    }
}

fn write_lisp(expr: &Expr, out: &mut String)
    ensures
        final(out)@ == old(out)@ + lisp_text(*expr),
    decreases expr,
{
    match expr {
        Expr::Binary { left, op, right } => {
            push_str(out, "(");
            push_op(out, *op);
            write_lisp(left, out);
            write_lisp(right, out);
            push_str(out, ")");
            assert(final(out)@ =~= old(out)@ + lisp_text(*expr));
        },
        Expr::Unary { op, right } => {
            if *op == TokenType::Plus {
                write_lisp(right, out);
            } else {
                push_str(out, "(");
                push_unary(out, *op);
                write_lisp(right, out);
                push_str(out, ")");
                assert(final(out)@ =~= old(out)@ + lisp_text(*expr));
            }
        },
        Expr::Grouping(inner) => write_lisp(inner, out),
        Expr::Int(value) => {
            push_str(out, " ");
            push_int(out, *value);
            assert(final(out)@ =~= old(out)@ + lisp_text(*expr));
        },
    }
}

/// The reverse-Polish text of the tree, as `rpn_text` describes.
pub fn evaluate_rpn(expr: Expr) -> (r: String)
    ensures
        r@ == rpn_text(expr),
{
    let mut out = String::new();
    write_rpn(&expr, &mut out);
    assert(out@ =~= rpn_text(expr));
    out
}

/// The fully parenthesised prefix text of the tree, as `lisp_text` describes.
pub fn evaluate_lisp(expr: Expr) -> (r: String)
    ensures
        r@ == lisp_text(expr),
{
    let mut out = String::new();
    write_lisp(&expr, &mut out);
    assert(out@ =~= lisp_text(expr));
    out
}

} // verus!
