//! Evaluation of preprocessor conditions.

use vstd::prelude::*;
use super::parse::{Expr, SpecExpr, expr_view, parse, parse_source};
use super::token::{P_NOT, P_TILDE, P_MINUS, P_PLUS, P_ANDAND, P_OROR, P_OR, P_XOR, P_AMP, P_EQEQ, P_NE,
    P_LT, P_LE, P_GT, P_GE, P_SHL, P_SHR, P_USHR, P_STAR, P_SLASH, P_PERCENT};
use super::number::float_syntax;
use super::format::{float_trunc, float_trunc_value};
use super::number::is_float_literal;

verus! {

/// The macro definitions that a condition is evaluated against
pub trait Definitions {
    /// Whether `name` is defined
    spec fn spec_is_defined(&self, name: Seq<char>) -> bool;

    /// The replacement text `name` expands to, if it has one
    spec fn spec_value_of(&self, name: Seq<char>) -> Option<Seq<char>>;

    fn is_defined(&self, name: &Vec<char>) -> (r: bool)
        ensures
            r == self.spec_is_defined(name@);

    fn value_of(&self, name: &Vec<char>) -> (r: Option<String>)
        ensures
            match r {
                Some(v) => self.spec_value_of(name@) == Some(v@),
                None => self.spec_value_of(name@) is None,
            };
}

/// Value of a unary operator applied to `v`
pub open spec fn unary_value(op: u8, v: i64) -> Option<i64> {
    if op == P_NOT {
        Some(if v == 0 { 1i64 } else { 0i64 })
    } else if op == P_TILDE {
        Some(!v)
    } else if op == P_MINUS {
        Some(0i64.wrapping_sub(v))
    } else if op == P_PLUS {
        Some(v)
    } else {
        None
    }
}

pub open spec fn flag(b: bool) -> i64 {
    if b { 1 } else { 0 }
}

/// Value of a binary operator other than `&&` and `||`, with wrapping
/// arithmetic; `None` for division by zero or overflowing division
pub open spec fn binary_value(op: u8, a: i64, b: i64) -> Option<i64> {
    if op == P_OR { Some(a | b) }
    else if op == P_XOR { Some(a ^ b) }
    else if op == P_AMP { Some(a & b) }
    else if op == P_EQEQ { Some(flag(a == b)) }
    else if op == P_NE { Some(flag(a != b)) }
    else if op == P_LT { Some(flag(a < b)) }
    else if op == P_LE { Some(flag(a <= b)) }
    else if op == P_GT { Some(flag(a > b)) }
    else if op == P_GE { Some(flag(a >= b)) }
    else if op == P_SHL { Some(a.wrapping_shl(b as u32)) }
    else if op == P_SHR { Some(a.wrapping_shr(b as u32)) }
    else if op == P_USHR { Some(((a as u64).wrapping_shr(b as u32)) as i64) }
    else if op == P_PLUS { Some(a.wrapping_add(b)) }
    else if op == P_MINUS { Some(a.wrapping_sub(b)) }
    else if op == P_STAR { Some(a.wrapping_mul(b)) }
    else if op == P_SLASH { a.checked_div(b) }
    else if op == P_PERCENT { a.checked_rem(b) }
    else { None }
}

/// Whether a name is defined, as seen through `env`
pub open spec fn defined_fn<D: Definitions>(env: D) -> spec_fn(Seq<char>) -> bool {
    |n: Seq<char>| env.spec_is_defined(n)
}

/// The replacement text of a name, as seen through `env`
pub open spec fn value_fn<D: Definitions>(env: D) -> spec_fn(Seq<char>) -> Option<Seq<char>> {
    |n: Seq<char>| env.spec_value_of(n)
}

/// The value of a condition: names expand to their macro's value (0 when
/// undefined or unparsable), `defined` asks the definitions, and nesting
/// deeper than 32 levels fails
pub open spec fn eval_expr(
    defined: spec_fn(Seq<char>) -> bool,
    value_of: spec_fn(Seq<char>) -> Option<Seq<char>>,
    e: SpecExpr,
    depth: int,
) -> Option<i64>
    decreases 33 - depth,
{
    if depth > 32 || depth < 0 {
        None
    } else {
        match e {
            SpecExpr::Int(v) => Some(v),
            SpecExpr::Char(_, v) => Some(v),
            SpecExpr::Bool(b) => Some(flag(b)),
            SpecExpr::Float(x) => Some(if float_syntax(x) { float_trunc(x) } else { 0 }),
            SpecExpr::Defined(n) => Some(flag(defined(n))),
            SpecExpr::Name(n) => match value_of(n) {
                Some(v) => match parse_source(v) {
                    Some(inner) => eval_expr(defined, value_of, inner, depth + 1),
                    None => Some(0),
                },
                None => Some(0),
            },
            SpecExpr::Unary(op, a) => match eval_expr(defined, value_of, *a, depth + 1) {
                Some(v) => unary_value(op, v),
                None => None,
            },
            SpecExpr::Binary(op, l, r) => match eval_expr(defined, value_of, *l, depth + 1) {
                None => None,
                Some(a) => if op == P_ANDAND {
                    if a == 0 { Some(0) } else {
                        match eval_expr(defined, value_of, *r, depth + 1) {
                            Some(b) => Some(flag(b != 0)),
                            None => None,
                        }
                    }
                } else if op == P_OROR {
                    if a != 0 { Some(1) } else {
                        match eval_expr(defined, value_of, *r, depth + 1) {
                            Some(b) => Some(flag(b != 0)),
                            None => None,
                        }
                    }
                } else {
                    match eval_expr(defined, value_of, *r, depth + 1) {
                        Some(b) => binary_value(op, a, b),
                        None => None,
                    }
                },
            },
            SpecExpr::Ternary(c, a, b) => match eval_expr(defined, value_of, *c, depth + 1) {
                None => None,
                Some(v) => if v != 0 { eval_expr(defined, value_of, *a, depth + 1) } else { eval_expr(defined, value_of, *b, depth + 1) },
            },
            SpecExpr::ViewAs(_, a) => eval_expr(defined, value_of, *a, depth + 1),
            _ => None,
        }
    }
}

fn unary_apply(op: u8, v: i64) -> (r: Option<i64>)
    ensures
        r == unary_value(op, v),
{
    if op == P_NOT {
        Some(if v == 0 { 1i64 } else { 0i64 })
    } else if op == P_TILDE {
        Some(!v)
    } else if op == P_MINUS {
        Some(0i64.wrapping_sub(v))
    } else if op == P_PLUS {
        Some(v)
    } else {
        None
    }
}

fn binary_apply(op: u8, a: i64, b: i64) -> (r: Option<i64>)
    ensures
        r == binary_value(op, a, b),
{
    if op == P_OR { Some(a | b) }
    else if op == P_XOR { Some(a ^ b) }
    else if op == P_AMP { Some(a & b) }
    else if op == P_EQEQ { Some(if a == b { 1 } else { 0 }) }
    else if op == P_NE { Some(if a != b { 1 } else { 0 }) }
    else if op == P_LT { Some(if a < b { 1 } else { 0 }) }
    else if op == P_LE { Some(if a <= b { 1 } else { 0 }) }
    else if op == P_GT { Some(if a > b { 1 } else { 0 }) }
    else if op == P_GE { Some(if a >= b { 1 } else { 0 }) }
    else if op == P_SHL { Some(a.wrapping_shl(b as u32)) }
    else if op == P_SHR { Some(a.wrapping_shr(b as u32)) }
    else if op == P_USHR { Some(((a as u64).wrapping_shr(b as u32)) as i64) }
    else if op == P_PLUS { Some(a.wrapping_add(b)) }
    else if op == P_MINUS { Some(a.wrapping_sub(b)) }
    else if op == P_STAR { Some(a.wrapping_mul(b)) }
    else if op == P_SLASH { a.checked_div(b) }
    else if op == P_PERCENT { a.checked_rem(b) }
    else { None }
}

/// Evaluates a preprocessor condition.
pub fn eval<D: Definitions>(e: &Expr, env: &D, depth: usize) -> (r: Option<i64>)
    ensures
        r == eval_expr(defined_fn(*env), value_fn(*env), expr_view(*e), depth as int),
    decreases 33 - depth,
{
    if depth > 32 {
        return None;
    }
    match e {
        Expr::Int(v) => Some(*v),
        Expr::Char(_, v) => Some(*v),
        Expr::Bool(b) => Some(if *b { 1 } else { 0 }),
        Expr::Float(x) => Some(if is_float_literal(x) { float_trunc_value(x) } else { 0 }),
        Expr::Defined(n) => Some(if env.is_defined(n) { 1 } else { 0 }),
        Expr::Name(n) => match env.value_of(n) {
            Some(v) => match parse(v.as_str()) {
                Some(inner) => eval(&inner, env, depth + 1),
                None => Some(0),
            },
            None => Some(0),
        },
        Expr::Unary(op, a) => match eval(a, env, depth + 1) {
            Some(v) => unary_apply(*op, v),
            None => None,
        },
        Expr::Binary(op, l, r) => {
            let a = match eval(l, env, depth + 1) {
                Some(a) => a,
                None => return None,
            };
            if *op == P_ANDAND {
                if a == 0 {
                    return Some(0);
                }
                return match eval(r, env, depth + 1) {
                    Some(b) => Some(if b != 0 { 1 } else { 0 }),
                    None => None,
                };
            }
            if *op == P_OROR {
                if a != 0 {
                    return Some(1);
                }
                return match eval(r, env, depth + 1) {
                    Some(b) => Some(if b != 0 { 1 } else { 0 }),
                    None => None,
                };
            }
            match eval(r, env, depth + 1) {
                Some(b) => binary_apply(*op, a, b),
                None => None,
            }
        }
        Expr::Ternary(c, a, b) => match eval(c, env, depth + 1) {
            None => None,
            Some(v) => if v != 0 { eval(a, env, depth + 1) } else { eval(b, env, depth + 1) },
        },
        Expr::ViewAs(_, a) => eval(a, env, depth + 1),
        _ => None,
    }
}

/// The value of `a op b` for two integer literals, at a depth where both
/// can still be evaluated
pub open spec fn binary_of_ints(
    defined: spec_fn(Seq<char>) -> bool,
    value_of: spec_fn(Seq<char>) -> Option<Seq<char>>,
    op: u8,
    a: i64,
    b: i64,
    depth: int,
) -> Option<i64> {
    eval_expr(defined, value_of, SpecExpr::Binary(op, Box::new(SpecExpr::Int(a)), Box::new(SpecExpr::Int(b))), depth)
}

/// Comparisons, equality and the logical operators of a condition give 1
/// when they hold of the two integers and 0 when they don't
#[verifier::spinoff_prover]
pub proof fn law_comparisons(
    defined: spec_fn(Seq<char>) -> bool,
    value_of: spec_fn(Seq<char>) -> Option<Seq<char>>,
    a: i64,
    b: i64,
    depth: int,
)
    requires
        0 <= depth < 32,
    ensures
        binary_of_ints(defined, value_of, P_LT, a, b, depth) == Some(if a < b { 1i64 } else { 0i64 }),
        binary_of_ints(defined, value_of, P_LE, a, b, depth) == Some(if a <= b { 1i64 } else { 0i64 }),
        binary_of_ints(defined, value_of, P_GT, a, b, depth) == Some(if a > b { 1i64 } else { 0i64 }),
        binary_of_ints(defined, value_of, P_GE, a, b, depth) == Some(if a >= b { 1i64 } else { 0i64 }),
        binary_of_ints(defined, value_of, P_EQEQ, a, b, depth) == Some(if a == b { 1i64 } else { 0i64 }),
        binary_of_ints(defined, value_of, P_NE, a, b, depth) == Some(if a != b { 1i64 } else { 0i64 }),
        binary_of_ints(defined, value_of, P_ANDAND, a, b, depth) == Some(if a != 0 && b != 0 { 1i64 } else { 0i64 }),
        binary_of_ints(defined, value_of, P_OROR, a, b, depth) == Some(if a != 0 || b != 0 { 1i64 } else { 0i64 }),
{
    reveal_with_fuel(eval_expr, 2);
}

/// `+`, `-` and `*` give the sum, difference and product where it fits in
/// 64 bits; `&`, `|` and `^` are the bitwise operations
#[verifier::spinoff_prover]
pub proof fn law_arithmetic(
    defined: spec_fn(Seq<char>) -> bool,
    value_of: spec_fn(Seq<char>) -> Option<Seq<char>>,
    a: i64,
    b: i64,
    depth: int,
)
    requires
        0 <= depth < 32,
    ensures
        i64::MIN <= a + b <= i64::MAX ==> binary_of_ints(defined, value_of, P_PLUS, a, b, depth) == Some((a + b) as i64),
        i64::MIN <= a - b <= i64::MAX ==> binary_of_ints(defined, value_of, P_MINUS, a, b, depth) == Some((a - b) as i64),
        i64::MIN <= a * b <= i64::MAX ==> binary_of_ints(defined, value_of, P_STAR, a, b, depth) == Some((a * b) as i64),
        binary_of_ints(defined, value_of, P_AMP, a, b, depth) == Some(a & b),
        binary_of_ints(defined, value_of, P_OR, a, b, depth) == Some(a | b),
        binary_of_ints(defined, value_of, P_XOR, a, b, depth) == Some(a ^ b),
{
    reveal_with_fuel(eval_expr, 2);
}

/// `!` gives 1 exactly for 0, and unary `-` negates where the negation fits
pub proof fn law_unary_operators(
    defined: spec_fn(Seq<char>) -> bool,
    value_of: spec_fn(Seq<char>) -> Option<Seq<char>>,
    a: i64,
    depth: int,
)
    requires
        0 <= depth < 32,
    ensures
        eval_expr(defined, value_of, SpecExpr::Unary(P_NOT, Box::new(SpecExpr::Int(a))), depth) == Some(
            if a == 0 { 1i64 } else { 0i64 }),
        a != i64::MIN ==> eval_expr(defined, value_of, SpecExpr::Unary(P_MINUS, Box::new(SpecExpr::Int(a))), depth)
            == Some((-a) as i64),
        eval_expr(defined, value_of, SpecExpr::Unary(P_PLUS, Box::new(SpecExpr::Int(a))), depth) == Some(a),
        eval_expr(defined, value_of, SpecExpr::Unary(P_TILDE, Box::new(SpecExpr::Int(a))), depth) == Some(!a),
{
    reveal_with_fuel(eval_expr, 2);
}

/// `c ? x : y` picks `x` exactly when `c` is not 0; `defined n` is 1
/// exactly when `n` is defined; a name without a value counts as 0; `true`
/// and `false` count as 1 and 0
pub proof fn law_condition_forms(
    defined: spec_fn(Seq<char>) -> bool,
    value_of: spec_fn(Seq<char>) -> Option<Seq<char>>,
    c: i64,
    x: i64,
    y: i64,
    n: Seq<char>,
    depth: int,
)
    requires
        0 <= depth < 32,
    ensures
        eval_expr(defined, value_of, SpecExpr::Ternary(Box::new(SpecExpr::Int(c)), Box::new(SpecExpr::Int(x)),
            Box::new(SpecExpr::Int(y))), depth) == Some(if c != 0 { x } else { y }),
        eval_expr(defined, value_of, SpecExpr::Defined(n), depth) == Some(if defined(n) { 1i64 } else { 0i64 }),
        value_of(n) is None ==> eval_expr(defined, value_of, SpecExpr::Name(n), depth) == Some(0i64),
        eval_expr(defined, value_of, SpecExpr::Bool(true), depth) == Some(1i64),
        eval_expr(defined, value_of, SpecExpr::Bool(false), depth) == Some(0i64),
        eval_expr(defined, value_of, SpecExpr::Int(x), depth) == Some(x),
{
    reveal_with_fuel(eval_expr, 2);
}

proof fn lemma_positive_div_mod(x: int, d: int)
    requires
        0 <= x,
        0 < d,
    ensures
        x == d * (x / d) + x % d,
        0 <= x % d < d,
        0 <= x / d <= x,
{
    vstd::arithmetic::div_mod::lemma_fundamental_div_mod(x, d);
    vstd::arithmetic::div_mod::lemma_mod_pos_bound(x, d);
    vstd::arithmetic::div_mod::lemma_div_pos_is_pos(x, d);
    vstd::arithmetic::div_mod::lemma_div_is_ordered_by_denominator(x, 1, d);
    vstd::arithmetic::div_mod::lemma_div_basics(x);
}

#[verifier::spinoff_prover]
proof fn lemma_truncated_div(a: i64, b: i64)
    requires
        b != 0,
        !(a == i64::MIN && b == -1),
    ensures
        a.checked_div(b) is Some,
        a.checked_rem(b) is Some,
        a.checked_div(b)->0 * b + a.checked_rem(b)->0 == a,
        a.checked_rem(b)->0 == 0 || (a.checked_rem(b)->0 < 0) == (a < 0),
        -(if b < 0 { -b } else { b as int }) < a.checked_rem(b)->0 < (if b < 0 { -b } else { b as int }),
{
    let x = a as int;
    let d = b as int;
    if x > 0 && d > 0 {
        lemma_positive_div_mod(x, d);
        let (q, r) = (x / d, x % d);
        assert(q * d + r == x) by (nonlinear_arith) requires x == d * q + r;
        assert(a.checked_div(b) == Some(q as i64));
        assert(a.checked_rem(b) == Some(r as i64));
        assert(i64::MIN <= q <= i64::MAX && i64::MIN <= r <= i64::MAX);
        let (qi, ri) = (q as i64, r as i64);
        assert(qi as int == q && ri as int == r);
        assert(qi * b + ri == a) by (nonlinear_arith) requires qi as int == q, ri as int == r, b as int == d, a as int == x, q * d + r == x;
        assert(a.checked_div(b)->0 == qi && a.checked_rem(b)->0 == ri);
    } else if x < 0 && d < 0 {
        lemma_positive_div_mod(-x, -d);
        let (q, r) = ((-x) / (-d), -((-x) % (-d)));
        assert(q * d + r == x) by (nonlinear_arith) requires -x == (-d) * q - r;
        if d < -1 {
            assert(q <= -x / 2) by (nonlinear_arith) requires -x == (-d) * q - r, -d >= 2, q >= 0, r <= 0;
        }
        assert(a.checked_div(b) == Some(q as i64));
        assert(a.checked_rem(b) == Some(r as i64));
        assert(i64::MIN <= q <= i64::MAX && i64::MIN <= r <= i64::MAX);
        let (qi, ri) = (q as i64, r as i64);
        assert(qi as int == q && ri as int == r);
        assert(qi * b + ri == a) by (nonlinear_arith) requires qi as int == q, ri as int == r, b as int == d, a as int == x, q * d + r == x;
        assert(a.checked_div(b)->0 == qi && a.checked_rem(b)->0 == ri);
    } else if x < 0 {
        lemma_positive_div_mod(-x, d);
        let (q, r) = (-((-x) / d), -((-x) % d));
        assert(q * d + r == x) by (nonlinear_arith) requires -x == d * (-q) - r;
        assert(a.checked_div(b) == Some(q as i64));
        assert(a.checked_rem(b) == Some(r as i64));
        assert(i64::MIN <= q <= i64::MAX && i64::MIN <= r <= i64::MAX);
        let (qi, ri) = (q as i64, r as i64);
        assert(qi as int == q && ri as int == r);
        assert(qi * b + ri == a) by (nonlinear_arith) requires qi as int == q, ri as int == r, b as int == d, a as int == x, q * d + r == x;
        assert(a.checked_div(b)->0 == qi && a.checked_rem(b)->0 == ri);
    } else if x > 0 {
        lemma_positive_div_mod(x, -d);
        let (q, r) = (-(x / (-d)), x % (-d));
        assert(q * d + r == x) by (nonlinear_arith) requires x == (-d) * (-q) + r;
        assert(a.checked_div(b) == Some(q as i64));
        assert(a.checked_rem(b) == Some(r as i64));
        assert(i64::MIN <= q <= i64::MAX && i64::MIN <= r <= i64::MAX);
        let (qi, ri) = (q as i64, r as i64);
        assert(qi as int == q && ri as int == r);
        assert(qi * b + ri == a) by (nonlinear_arith) requires qi as int == q, ri as int == r, b as int == d, a as int == x, q * d + r == x;
        assert(a.checked_div(b)->0 == qi && a.checked_rem(b)->0 == ri);
    } else {
        assert(a.checked_div(b) == Some(0i64));
        assert(a.checked_rem(b) == Some(0i64));
        let (qi, ri) = (a.checked_div(b)->0, a.checked_rem(b)->0);
        assert(qi * b + ri == a) by (nonlinear_arith) requires qi == 0, ri == 0, a == 0;
    }
}

proof fn lemma_min_by_minus_one()
    ensures
        i64::MIN.checked_div(-1i64) is None,
{
    let x = i64::MIN as int;
    assert((x * -1) / (-1 * -1) == 0x8000_0000_0000_0000int) by {
        vstd::arithmetic::div_mod::lemma_div_basics(0x8000_0000_0000_0000int);
    }
}

/// `/` and `%` divide with truncation toward zero: the quotient times the
/// divisor plus the remainder is the dividend, and the remainder is smaller
/// than the divisor and has the sign of the dividend; dividing by zero, or
/// the smallest value by -1, fails
#[verifier::spinoff_prover]
pub proof fn law_division(
    defined: spec_fn(Seq<char>) -> bool,
    value_of: spec_fn(Seq<char>) -> Option<Seq<char>>,
    a: i64,
    b: i64,
    depth: int,
)
    requires
        0 <= depth < 32,
    ensures
        b == 0 ==> binary_of_ints(defined, value_of, P_SLASH, a, b, depth) is None && binary_of_ints(defined, value_of,
            P_PERCENT, a, b, depth) is None,
        a == i64::MIN && b == -1 ==> binary_of_ints(defined, value_of, P_SLASH, a, b, depth) is None,
        b != 0 && !(a == i64::MIN && b == -1) ==> ({
            &&& binary_of_ints(defined, value_of, P_SLASH, a, b, depth) matches Some(q)
            &&& binary_of_ints(defined, value_of, P_PERCENT, a, b, depth) matches Some(r)
            &&& q * b + r == a
            &&& r == 0 || (r < 0) == (a < 0)
            &&& -(if b < 0 { -b } else { b as int }) < r < (if b < 0 { -b } else { b as int })
        }),
{
    reveal_with_fuel(eval_expr, 2);
    assert(binary_of_ints(defined, value_of, P_SLASH, a, b, depth) == a.checked_div(b));
    assert(binary_of_ints(defined, value_of, P_PERCENT, a, b, depth) == a.checked_rem(b));
    if b != 0 && !(a == i64::MIN && b == -1) {
        lemma_truncated_div(a, b);
    }
    if a == i64::MIN && b == -1 {
        lemma_min_by_minus_one();
    }
}

} // verus!
