//! Recursive descent parsing of constant expressions.

use vstd::prelude::*;
use crate::text::{chars_eq, chars_of, string_from_chars};
use super::token::{Token, SpecToken, tokens_view, punct_table, punct_text, tokenize, lex, P_LPAREN, P_RPAREN, P_LBRACKET, P_RBRACKET, P_LBRACE, P_RBRACE, P_LT, P_GT, P_QUESTION, P_COLON, P_COMMA, P_DOT, P_SCOPE, P_ELLIPSIS, P_INC, P_DEC, P_NOT, P_TILDE, P_MINUS, P_PLUS, P_AMP, P_OROR, P_ANDAND, P_OR, P_XOR, P_EQEQ, P_NE, P_LE, P_GE, P_SHL, P_SHR, P_USHR, P_STAR, P_SLASH, P_PERCENT, P_ASSIGN, P_ADD_ASSIGN, P_SUB_ASSIGN, P_MUL_ASSIGN, P_DIV_ASSIGN, P_MOD_ASSIGN, P_AND_ASSIGN, P_OR_ASSIGN, P_XOR_ASSIGN, P_SHL_ASSIGN, P_SHR_ASSIGN, P_USHR_ASSIGN};
use super::format::{int_text, float_text, int_chars, float_chars};
use super::number::{float_syntax, is_float_literal};

verus! {

/// An expression as the specifications see it; operators are punctuator
/// indices
pub enum SpecExpr {
    Int(i64),
    Float(Seq<char>),
    Str(Seq<char>),
    Char(Seq<char>, i64),
    Name(Seq<char>),
    Bool(bool),
    Null,
    This,
    Unary(u8, Box<SpecExpr>),
    Postfix(u8, Box<SpecExpr>),
    Binary(u8, Box<SpecExpr>, Box<SpecExpr>),
    Ternary(Box<SpecExpr>, Box<SpecExpr>, Box<SpecExpr>),
    Call(Box<SpecExpr>, Seq<SpecExpr>),
    Index(Box<SpecExpr>, Box<SpecExpr>),
    Field(Box<SpecExpr>, u8, Seq<char>),
    ViewAs(Seq<char>, Box<SpecExpr>),
    Sizeof(Seq<char>),
    Defined(Seq<char>),
    Array(Seq<SpecExpr>, bool),
}

#[derive(Debug)]
pub enum Expr {
    Int(i64),
    /// Float literal text with `_` removed
    Float(Vec<char>),
    Str(Vec<char>),
    Char(Vec<char>, i64),
    Name(Vec<char>),
    Bool(bool),
    Null,
    This,
    Unary(u8, Box<Expr>),
    Postfix(u8, Box<Expr>),
    Binary(u8, Box<Expr>, Box<Expr>),
    Ternary(Box<Expr>, Box<Expr>, Box<Expr>),
    Call(Box<Expr>, Vec<Expr>),
    Index(Box<Expr>, Box<Expr>),
    Field(Box<Expr>, u8, Vec<char>),
    ViewAs(Vec<char>, Box<Expr>),
    Sizeof(Vec<char>),
    Defined(Vec<char>),
    Array(Vec<Expr>, bool),
}

pub open spec fn expr_view(e: Expr) -> SpecExpr
    decreases e,
{
    match e {
        Expr::Int(v) => SpecExpr::Int(v),
        Expr::Float(t) => SpecExpr::Float(t@),
        Expr::Str(t) => SpecExpr::Str(t@),
        Expr::Char(t, v) => SpecExpr::Char(t@, v),
        Expr::Name(t) => SpecExpr::Name(t@),
        Expr::Bool(b) => SpecExpr::Bool(b),
        Expr::Null => SpecExpr::Null,
        Expr::This => SpecExpr::This,
        Expr::Unary(op, a) => SpecExpr::Unary(op, Box::new(expr_view(*a))),
        Expr::Postfix(op, a) => SpecExpr::Postfix(op, Box::new(expr_view(*a))),
        Expr::Binary(op, a, b) => SpecExpr::Binary(op, Box::new(expr_view(*a)), Box::new(expr_view(*b))),
        Expr::Ternary(a, b, c) => SpecExpr::Ternary(Box::new(expr_view(*a)), Box::new(expr_view(*b)), Box::new(expr_view(*c))),
        Expr::Call(f, args) => SpecExpr::Call(Box::new(expr_view(*f)), exprs_view(args@)),
        Expr::Index(a, b) => SpecExpr::Index(Box::new(expr_view(*a)), Box::new(expr_view(*b))),
        Expr::Field(a, op, n) => SpecExpr::Field(Box::new(expr_view(*a)), op, n@),
        Expr::ViewAs(t, a) => SpecExpr::ViewAs(t@, Box::new(expr_view(*a))),
        Expr::Sizeof(t) => SpecExpr::Sizeof(t@),
        Expr::Defined(t) => SpecExpr::Defined(t@),
        Expr::Array(items, r) => SpecExpr::Array(exprs_view(items@), r),
    }
}

pub open spec fn exprs_view(es: Seq<Expr>) -> Seq<SpecExpr>
    decreases es,
{
    if es.len() == 0 {
        Seq::empty()
    } else {
        exprs_view(es.drop_last()).push(expr_view(es.last()))
    }
}


/// Whether token `p` is punctuator `k`
pub open spec fn is_punct(t: Seq<SpecToken>, p: int, k: u8) -> bool {
    0 <= p < t.len() && t[p] == SpecToken::Punct(k)
}

/// Binding power of a binary operator; assignments bind weakest
pub open spec fn binary_prec(op: u8) -> Option<u8> {
    if op == P_OROR { Some(1u8) }
    else if op == P_ANDAND { Some(2u8) }
    else if op == P_OR { Some(3u8) }
    else if op == P_XOR { Some(4u8) }
    else if op == P_AMP { Some(5u8) }
    else if op == P_EQEQ || op == P_NE { Some(6u8) }
    else if op == P_LT || op == P_LE || op == P_GT || op == P_GE { Some(7u8) }
    else if op == P_SHL || op == P_SHR || op == P_USHR { Some(8u8) }
    else if op == P_PLUS || op == P_MINUS { Some(9u8) }
    else if op == P_STAR || op == P_SLASH || op == P_PERCENT { Some(10u8) }
    else if op == P_ASSIGN || op == P_ADD_ASSIGN || op == P_SUB_ASSIGN || op == P_MUL_ASSIGN
        || op == P_DIV_ASSIGN || op == P_MOD_ASSIGN || op == P_AND_ASSIGN || op == P_OR_ASSIGN
        || op == P_XOR_ASSIGN || op == P_SHL_ASSIGN || op == P_SHR_ASSIGN || op == P_USHR_ASSIGN { Some(0u8) }
    else { None }
}

pub open spec fn is_unary_op(op: u8) -> bool {
    op == P_NOT || op == P_TILDE || op == P_MINUS || op == P_PLUS || op == P_INC || op == P_DEC || op == P_AMP
}

/// Old style tags (`Float:`, `String:`, `_:`) as new style types
pub open spec fn tag_type(tag: Seq<char>) -> Seq<char> {
    if tag == seq!['F', 'l', 'o', 'a', 't'] {
        seq!['f', 'l', 'o', 'a', 't']
    } else if tag == seq!['S', 't', 'r', 'i', 'n', 'g'] {
        seq!['c', 'h', 'a', 'r']
    } else if tag == seq!['_'] {
        seq!['i', 'n', 't']
    } else {
        tag
    }
}

/// Text of punctuator `k`
pub open spec fn punct_str(k: u8) -> Seq<char> {
    if k < 49 { punct_table()[k as int] } else { Seq::empty() }
}

/// Six decimal rendering of a float literal's text
pub open spec fn float_token_text(x: Seq<char>) -> Seq<char> {
    if float_syntax(x) { float_text(x) } else { x }
}

/// The text of a token as written (numbers normalized)
pub open spec fn token_text(t: SpecToken) -> Seq<char> {
    match t {
        SpecToken::Int(v) => int_text(v),
        SpecToken::Float(x) => float_token_text(x),
        SpecToken::Str(r) => r,
        SpecToken::Char(r, _) => r,
        SpecToken::Ident(n) => n,
        SpecToken::Punct(k) => punct_str(k),
    }
}

/// Tokens concatenated without separators
pub open spec fn render_tokens(ts: Seq<SpecToken>) -> Seq<char>
    decreases ts.len(),
{
    if ts.len() == 0 { Seq::empty() } else { render_tokens(ts.drop_last()) + token_text(ts.last()) }
}

/// Adjacent string literals from `q` on, appended to `s`
pub open spec fn str_concat(t: Seq<SpecToken>, q: int, s: Seq<char>) -> (Seq<char>, int)
    decreases t.len() - q,
{
    if 0 <= q < t.len() && t[q] is Str {
        let next = t[q]->Str_0;
        let head = if s.len() == 0 { s } else { s.take(s.len() - 1) };
        let tail = if next.len() == 0 { next } else { next.skip(1) };
        str_concat(t, q + 1, head + tail)
    } else {
        (s, q)
    }
}

/// End of a `sizeof` operand scanned from `q`
pub open spec fn sizeof_end(t: Seq<SpecToken>, q: int, depth: int, paren: bool) -> int
    decreases t.len() - q,
{
    if q < 0 || q >= t.len() {
        q
    } else {
        let tok = t[q];
        if tok == SpecToken::Punct(P_LPAREN) || tok == SpecToken::Punct(P_LBRACKET) {
            sizeof_end(t, q + 1, depth + 1, paren)
        } else if tok == SpecToken::Punct(P_RPAREN) || tok == SpecToken::Punct(P_RBRACKET) {
            if depth == 0 { q } else { sizeof_end(t, q + 1, depth - 1, paren) }
        } else if tok is Ident || tok == SpecToken::Punct(P_DOT) || tok == SpecToken::Punct(P_SCOPE) {
            sizeof_end(t, q + 1, depth, paren)
        } else if depth > 0 || paren {
            sizeof_end(t, q + 1, depth, paren)
        } else {
            q
        }
    }
}

/// The type written in `view_as<...>` from `q` up to the closing `>`
pub open spec fn view_type(t: Seq<SpecToken>, q: int, acc: Seq<char>) -> Option<(Seq<char>, int)>
    decreases t.len() - q,
{
    if q < 0 || q >= t.len() {
        Some((acc, q))
    } else if t[q] == SpecToken::Punct(P_GT) {
        Some((acc, q))
    } else {
        match t[q] {
            SpecToken::Ident(n) => view_type(t, q + 1, acc + n),
            SpecToken::Punct(k) => view_type(t, q + 1, acc + punct_str(k)),
            _ => None,
        }
    }
}

pub open spec fn kw_true() -> Seq<char> { seq!['t', 'r', 'u', 'e'] }
pub open spec fn kw_false() -> Seq<char> { seq!['f', 'a', 'l', 's', 'e'] }
pub open spec fn kw_null() -> Seq<char> { seq!['n', 'u', 'l', 'l'] }
pub open spec fn kw_this() -> Seq<char> { seq!['t', 'h', 'i', 's'] }
pub open spec fn kw_defined() -> Seq<char> { seq!['d', 'e', 'f', 'i', 'n', 'e', 'd'] }
pub open spec fn kw_sizeof() -> Seq<char> { seq!['s', 'i', 'z', 'e', 'o', 'f'] }
pub open spec fn kw_view_as() -> Seq<char> { seq!['v', 'i', 'e', 'w', '_', 'a', 's'] }

/// `cond ? a : b`, right associative
pub open spec fn p_ternary(t: Seq<SpecToken>, p: int) -> Option<(SpecExpr, int)>
    decreases 10 * (t.len() - p) + 6,
{
    if p < 0 || p > t.len() {
        None
    } else {
        match p_binary(t, p, 0) {
            None => None,
            Some((c, p1)) => if p1 < p || p1 > t.len() {
                None
            } else if is_punct(t, p1, P_QUESTION) {
                match p_ternary(t, p1 + 1) {
                    None => None,
                    Some((a, p2)) => if p2 < p1 + 1 || p2 > t.len() {
                        None
                    } else if is_punct(t, p2, P_COLON) {
                        match p_ternary(t, p2 + 1) {
                            None => None,
                            Some((b, p3)) => Some((SpecExpr::Ternary(Box::new(c), Box::new(a), Box::new(b)), p3)),
                        }
                    } else {
                        None
                    },
                }
            } else {
                Some((c, p1))
            },
        }
    }
}

/// Binary operators binding at least as strongly as `min`
pub open spec fn p_binary(t: Seq<SpecToken>, p: int, min: u8) -> Option<(SpecExpr, int)>
    decreases 10 * (t.len() - p) + 5,
{
    if p < 0 || p > t.len() {
        None
    } else {
        match p_unary(t, p) {
            None => None,
            Some((lhs, p1)) => if p1 <= p || p1 > t.len() { None } else { p_binary_rest(t, p1, min, lhs) },
        }
    }
}

/// The operators following a left operand
pub open spec fn p_binary_rest(t: Seq<SpecToken>, p: int, min: u8, lhs: SpecExpr) -> Option<(SpecExpr, int)>
    decreases 10 * (t.len() - p) + 5,
{
    if p < 0 || p > t.len() {
        None
    } else if p < t.len() && t[p] is Punct && binary_prec(t[p]->Punct_0) is Some
        && binary_prec(t[p]->Punct_0)->Some_0 >= min {
        let op = t[p]->Punct_0;
        let prec = binary_prec(op)->Some_0;
        let rhs_min: u8 = if prec == 0 { 0 } else { (prec + 1) as u8 };
        match p_binary(t, p + 1, rhs_min) {
            None => None,
            Some((rhs, p2)) => if p2 <= p || p2 > t.len() {
                None
            } else {
                p_binary_rest(t, p2, min, SpecExpr::Binary(op, Box::new(lhs), Box::new(rhs)))
            },
        }
    } else {
        Some((lhs, p))
    }
}

/// Prefix operators and old style tag casts
pub open spec fn p_unary(t: Seq<SpecToken>, p: int) -> Option<(SpecExpr, int)>
    decreases 10 * (t.len() - p) + 4,
{
    if p < 0 || p > t.len() {
        None
    } else if p < t.len() && t[p] is Punct && is_unary_op(t[p]->Punct_0) {
        match p_unary(t, p + 1) {
            None => None,
            Some((e, p2)) => Some((SpecExpr::Unary(t[p]->Punct_0, Box::new(e)), p2)),
        }
    } else if p + 2 < t.len() && t[p] is Ident && t[p + 1] == SpecToken::Punct(P_COLON)
        && t[p + 2] != SpecToken::Punct(P_COLON) {
        match p_unary(t, p + 2) {
            None => None,
            Some((e, p2)) => Some((SpecExpr::ViewAs(tag_type(t[p]->Ident_0), Box::new(e)), p2)),
        }
    } else {
        p_postfix(t, p)
    }
}

/// A primary expression followed by calls, indexing, fields and `++`/`--`
pub open spec fn p_postfix(t: Seq<SpecToken>, p: int) -> Option<(SpecExpr, int)>
    decreases 10 * (t.len() - p) + 3,
{
    if p < 0 || p > t.len() {
        None
    } else {
        match p_primary(t, p) {
            None => None,
            Some((e, p1)) => if p1 <= p || p1 > t.len() { None } else { p_postfix_rest(t, p1, e) },
        }
    }
}

pub open spec fn p_postfix_rest(t: Seq<SpecToken>, p: int, e: SpecExpr) -> Option<(SpecExpr, int)>
    decreases 10 * (t.len() - p) + 3,
{
    if p < 0 || p > t.len() {
        None
    } else if is_punct(t, p, P_LPAREN) {
        if is_punct(t, p + 1, P_RPAREN) {
            p_postfix_rest(t, p + 2, SpecExpr::Call(Box::new(e), Seq::empty()))
        } else {
            p_call_args(t, p + 1, e, Seq::empty())
        }
    } else if is_punct(t, p, P_LBRACKET) {
        match p_ternary(t, p + 1) {
            None => None,
            Some((idx, p2)) => if p2 <= p || p2 > t.len() {
                None
            } else if is_punct(t, p2, P_RBRACKET) {
                p_postfix_rest(t, p2 + 1, SpecExpr::Index(Box::new(e), Box::new(idx)))
            } else {
                None
            },
        }
    } else if is_punct(t, p, P_DOT) || is_punct(t, p, P_SCOPE) {
        if p + 1 < t.len() && t[p + 1] is Ident {
            p_postfix_rest(t, p + 2, SpecExpr::Field(Box::new(e), t[p]->Punct_0, t[p + 1]->Ident_0))
        } else {
            None
        }
    } else if is_punct(t, p, P_INC) || is_punct(t, p, P_DEC) {
        p_postfix_rest(t, p + 1, SpecExpr::Postfix(t[p]->Punct_0, Box::new(e)))
    } else {
        Some((e, p))
    }
}

/// Call arguments from `p` on, after those in `args`
pub open spec fn p_call_args(t: Seq<SpecToken>, p: int, f: SpecExpr, args: Seq<SpecExpr>) -> Option<(SpecExpr, int)>
    decreases 10 * (t.len() - p) + 7,
{
    if p < 0 || p > t.len() {
        None
    } else {
        match p_ternary(t, p) {
            None => None,
            Some((a, p1)) => if p1 < p || p1 > t.len() {
                None
            } else if is_punct(t, p1, P_RPAREN) {
                p_postfix_rest(t, p1 + 1, SpecExpr::Call(Box::new(f), args.push(a)))
            } else if is_punct(t, p1, P_COMMA) {
                p_call_args(t, p1 + 1, f, args.push(a))
            } else {
                None
            },
        }
    }
}

/// Array literal items from `p` on, after those in `items`
pub open spec fn p_array(t: Seq<SpecToken>, p: int, items: Seq<SpecExpr>) -> Option<(SpecExpr, int)>
    decreases 10 * (t.len() - p) + 7,
{
    if p < 0 || p > t.len() {
        None
    } else if is_punct(t, p, P_ELLIPSIS) {
        if is_punct(t, p + 1, P_RBRACE) { Some((SpecExpr::Array(items, true), p + 2)) } else { None }
    } else {
        match p_ternary(t, p) {
            None => None,
            Some((e, p1)) => if p1 < p || p1 > t.len() {
                None
            } else if is_punct(t, p1, P_RBRACE) {
                Some((SpecExpr::Array(items.push(e), false), p1 + 1))
            } else if is_punct(t, p1, P_COMMA) {
                if is_punct(t, p1 + 1, P_RBRACE) {
                    Some((SpecExpr::Array(items.push(e), false), p1 + 2))
                } else {
                    p_array(t, p1 + 1, items.push(e))
                }
            } else {
                None
            },
        }
    }
}

pub open spec fn p_primary(t: Seq<SpecToken>, p: int) -> Option<(SpecExpr, int)>
    decreases 10 * (t.len() - p) + 2,
{
    if p < 0 || p >= t.len() {
        None
    } else {
        let p1 = p + 1;
        match t[p] {
            SpecToken::Int(v) => Some((SpecExpr::Int(v), p1)),
            SpecToken::Float(x) => Some((SpecExpr::Float(x), p1)),
            SpecToken::Char(r, v) => Some((SpecExpr::Char(r, v), p1)),
            SpecToken::Str(s) => {
                let (s2, q) = str_concat(t, p1, s);
                Some((SpecExpr::Str(s2), q))
            },
            SpecToken::Ident(n) => if n == kw_true() {
                Some((SpecExpr::Bool(true), p1))
            } else if n == kw_false() {
                Some((SpecExpr::Bool(false), p1))
            } else if n == kw_null() {
                Some((SpecExpr::Null, p1))
            } else if n == kw_this() {
                Some((SpecExpr::This, p1))
            } else if n == kw_defined() {
                let paren = is_punct(t, p1, P_LPAREN);
                let q = if paren { p1 + 1 } else { p1 };
                if q < t.len() && t[q] is Ident {
                    if paren {
                        if is_punct(t, q + 1, P_RPAREN) { Some((SpecExpr::Defined(t[q]->Ident_0), q + 2)) } else { None }
                    } else {
                        Some((SpecExpr::Defined(t[q]->Ident_0), q + 1))
                    }
                } else {
                    None
                }
            } else if n == kw_sizeof() {
                let paren = is_punct(t, p1, P_LPAREN);
                let start = if paren { p1 + 1 } else { p1 };
                let end = sizeof_end(t, start, 0, paren);
                let operand = render_tokens(t.subrange(start, end));
                if paren {
                    if is_punct(t, end, P_RPAREN) { Some((SpecExpr::Sizeof(operand), end + 1)) } else { None }
                } else {
                    Some((SpecExpr::Sizeof(operand), end))
                }
            } else if n == kw_view_as() {
                if !is_punct(t, p1, P_LT) {
                    None
                } else {
                    match view_type(t, p1 + 1, Seq::empty()) {
                        None => None,
                        Some((ty, q)) => if q <= p || q > t.len() {
                            None
                        } else if is_punct(t, q, P_GT) && is_punct(t, q + 1, P_LPAREN) {
                            match p_ternary(t, q + 2) {
                                None => None,
                                Some((e, q2)) => if is_punct(t, q2, P_RPAREN) {
                                    Some((SpecExpr::ViewAs(ty, Box::new(e)), q2 + 1))
                                } else {
                                    None
                                },
                            }
                        } else {
                            None
                        },
                    }
                }
            } else {
                Some((SpecExpr::Name(n), p1))
            },
            SpecToken::Punct(k) => if k == P_LPAREN {
                match p_ternary(t, p1) {
                    None => None,
                    Some((e, q)) => if is_punct(t, q, P_RPAREN) { Some((e, q + 1)) } else { None },
                }
            } else if k == P_LBRACE {
                if is_punct(t, p1, P_RBRACE) {
                    Some((SpecExpr::Array(Seq::empty(), false), p1 + 1))
                } else {
                    p_array(t, p1, Seq::empty())
                }
            } else {
                None
            },
        }
    }
}

/// The expression that the whole token sequence writes
pub open spec fn parse_tokens(t: Seq<SpecToken>) -> Option<SpecExpr> {
    if t.len() == 0 {
        None
    } else {
        match p_ternary(t, 0) {
            Some((e, q)) => if q == t.len() { Some(e) } else { None },
            None => None,
        }
    }
}

/// The expression that a source text writes
pub open spec fn parse_source(s: Seq<char>) -> Option<SpecExpr> {
    match lex(s, 0) {
        Some(t) => parse_tokens(t),
        None => None,
    }
}


pub fn punct_chars(k: u8) -> (r: Vec<char>)
    ensures
        r@ == punct_str(k),
{
    let mut out = Vec::new();
    if k < 49 {
        let t = punct_text(k);
        let mut i: usize = 0;
        while i < t.len()
            invariant
                0 <= i <= t.len(),
                out@ == t@.subrange(0, i as int),
            decreases t.len() - i,
        {
            out.push(t[i]);
            i = i + 1;
        }
        assert(t@.subrange(0, t@.len() as int) =~= t@);
    }
    out
}

pub fn clone_chars(v: &Vec<char>) -> (r: Vec<char>)
    ensures
        r@ == v@,
{
    let mut out = Vec::new();
    let mut i: usize = 0;
    while i < v.len()
        invariant
            0 <= i <= v.len(),
            out@ == v@.subrange(0, i as int),
        decreases v.len() - i,
    {
        out.push(v[i]);
        i = i + 1;
    }
    assert(v@.subrange(0, v@.len() as int) =~= v@);
    out
}

pub fn append_chars(out: &mut Vec<char>, v: &Vec<char>)
    ensures
        final(out)@ == old(out)@ + v@,
{
    let mut i: usize = 0;
    while i < v.len()
        invariant
            0 <= i <= v.len(),
            out@ == old(out)@ + v@.subrange(0, i as int),
        decreases v.len() - i,
    {
        out.push(v[i]);
        i = i + 1;
        assert(out@ =~= old(out)@ + v@.subrange(0, i as int));
    }
    assert(v@.subrange(0, v@.len() as int) =~= v@);
}

pub fn float_token_chars(x: &Vec<char>) -> (r: Vec<char>)
    ensures
        r@ == float_token_text(x@),
{
    if is_float_literal(x) { float_chars(x) } else { clone_chars(x) }
}

fn token_chars(t: &Token) -> (r: Vec<char>)
    ensures
        r@ == token_text(t@),
{
    match t {
        Token::Int(v) => int_chars(*v),
        Token::Float(x) => float_token_chars(x),
        Token::Str(r) => clone_chars(r),
        Token::Char(r, _) => clone_chars(r),
        Token::Ident(n) => clone_chars(n),
        Token::Punct(k) => punct_chars(*k),
    }
}

fn render_token_range(ts: &Vec<Token>, start: usize, end: usize) -> (r: Vec<char>)
    requires
        start <= end <= ts.len(),
    ensures
        r@ == render_tokens(tokens_view(ts@).subrange(start as int, end as int)),
{
    let mut out: Vec<char> = Vec::new();
    let mut k = start;
    assert(tokens_view(ts@).subrange(start as int, start as int) =~= Seq::<SpecToken>::empty());
    while k < end
        invariant
            start <= k <= end <= ts.len(),
            out@ == render_tokens(tokens_view(ts@).subrange(start as int, k as int)),
        decreases end - k,
    {
        let piece = token_chars(&ts[k]);
        append_chars(&mut out, &piece);
        let ghost sub = tokens_view(ts@).subrange(start as int, k + 1);
        assert(sub.drop_last() =~= tokens_view(ts@).subrange(start as int, k as int));
        assert(sub.last() == ts@[k as int]@);
        k = k + 1;
    }
    out
}

fn punct_is(ts: &Vec<Token>, p: usize, k: u8) -> (r: bool)
    ensures
        r == is_punct(tokens_view(ts@), p as int, k),
{
    if p < ts.len() {
        match &ts[p] {
            Token::Punct(x) => *x == k,
            _ => false,
        }
    } else {
        false
    }
}

fn binary_precedence(op: u8) -> (r: Option<u8>)
    ensures
        r == binary_prec(op),
{
    if op == P_OROR { Some(1u8) }
    else if op == P_ANDAND { Some(2u8) }
    else if op == P_OR { Some(3u8) }
    else if op == P_XOR { Some(4u8) }
    else if op == P_AMP { Some(5u8) }
    else if op == P_EQEQ || op == P_NE { Some(6u8) }
    else if op == P_LT || op == P_LE || op == P_GT || op == P_GE { Some(7u8) }
    else if op == P_SHL || op == P_SHR || op == P_USHR { Some(8u8) }
    else if op == P_PLUS || op == P_MINUS { Some(9u8) }
    else if op == P_STAR || op == P_SLASH || op == P_PERCENT { Some(10u8) }
    else if op == P_ASSIGN || op == P_ADD_ASSIGN || op == P_SUB_ASSIGN || op == P_MUL_ASSIGN
        || op == P_DIV_ASSIGN || op == P_MOD_ASSIGN || op == P_AND_ASSIGN || op == P_OR_ASSIGN
        || op == P_XOR_ASSIGN || op == P_SHL_ASSIGN || op == P_SHR_ASSIGN || op == P_USHR_ASSIGN { Some(0u8) }
    else { None }
}

pub fn tag_type_chars(tag: &Vec<char>) -> (r: Vec<char>)
    ensures
        r@ == tag_type(tag@),
{
    let mut out = Vec::new();
    if chars_eq(tag.as_slice(), &['F', 'l', 'o', 'a', 't']) {
        out.push('f'); out.push('l'); out.push('o'); out.push('a'); out.push('t');
        assert(out@ =~= seq!['f', 'l', 'o', 'a', 't']);
    } else if chars_eq(tag.as_slice(), &['S', 't', 'r', 'i', 'n', 'g']) {
        out.push('c'); out.push('h'); out.push('a'); out.push('r');
        assert(out@ =~= seq!['c', 'h', 'a', 'r']);
    } else if chars_eq(tag.as_slice(), &['_']) {
        out.push('i'); out.push('n'); out.push('t');
        assert(out@ =~= seq!['i', 'n', 't']);
    } else {
        assert((&['F', 'l', 'o', 'a', 't'])@ =~= seq!['F', 'l', 'o', 'a', 't']);
        assert((&['S', 't', 'r', 'i', 'n', 'g'])@ =~= seq!['S', 't', 'r', 'i', 'n', 'g']);
        assert((&['_'])@ =~= seq!['_']);
        return clone_chars(tag);
    }
    assert((&['F', 'l', 'o', 'a', 't'])@ =~= seq!['F', 'l', 'o', 'a', 't']);
    assert((&['S', 't', 'r', 'i', 'n', 'g'])@ =~= seq!['S', 't', 'r', 'i', 'n', 'g']);
    assert((&['_'])@ =~= seq!['_']);
    out
}


pub open spec fn parsed(r: Option<(Expr, usize)>, spec: Option<(SpecExpr, int)>) -> bool {
    match r {
        Some((e, q)) => spec == Some((expr_view(e), q as int)),
        None => spec is None,
    }
}

pub open spec fn advanced(r: Option<(Expr, usize)>, p: usize, len: nat, strict: bool) -> bool {
    match r {
        Some((_, q)) => (if strict { p < q } else { p <= q }) && q <= len,
        None => true,
    }
}

fn ternary(ts: &Vec<Token>, p: usize) -> (r: Option<(Expr, usize)>)
    requires
        p <= ts.len(),
    ensures
        parsed(r, p_ternary(tokens_view(ts@), p as int)),
        advanced(r, p, ts@.len(), true),
    decreases 10 * (ts.len() - p) + 6,
{
    let (c, p1) = match binary(ts, p, 0) {
        Some(x) => x,
        None => return None,
    };
    if punct_is(ts, p1, P_QUESTION) {
        let (a, p2) = match ternary(ts, p1 + 1) {
            Some(x) => x,
            None => return None,
        };
        if !punct_is(ts, p2, P_COLON) {
            return None;
        }
        let (b, p3) = match ternary(ts, p2 + 1) {
            Some(x) => x,
            None => return None,
        };
        return Some((Expr::Ternary(Box::new(c), Box::new(a), Box::new(b)), p3));
    }
    Some((c, p1))
}

fn binary(ts: &Vec<Token>, p: usize, min: u8) -> (r: Option<(Expr, usize)>)
    requires
        p <= ts.len(),
    ensures
        parsed(r, p_binary(tokens_view(ts@), p as int, min)),
        advanced(r, p, ts@.len(), true),
    decreases 10 * (ts.len() - p) + 5,
{
    let (lhs, p1) = match unary(ts, p) {
        Some(x) => x,
        None => return None,
    };
    binary_rest(ts, p1, min, lhs)
}

fn binary_rest(ts: &Vec<Token>, p: usize, min: u8, lhs: Expr) -> (r: Option<(Expr, usize)>)
    requires
        p <= ts.len(),
    ensures
        parsed(r, p_binary_rest(tokens_view(ts@), p as int, min, expr_view(lhs))),
        advanced(r, p, ts@.len(), false),
    decreases 10 * (ts.len() - p) + 5,
{
    let op = if p < ts.len() {
        match &ts[p] {
            Token::Punct(k) => *k,
            _ => return Some((lhs, p)),
        }
    } else {
        return Some((lhs, p));
    };
    let prec = match binary_precedence(op) {
        Some(pr) => pr,
        None => return Some((lhs, p)),
    };
    if prec < min {
        return Some((lhs, p));
    }
    let rhs_min: u8 = if prec == 0 { 0 } else { prec + 1 };
    let (rhs, p2) = match binary(ts, p + 1, rhs_min) {
        Some(x) => x,
        None => return None,
    };
    binary_rest(ts, p2, min, Expr::Binary(op, Box::new(lhs), Box::new(rhs)))
}

fn unary(ts: &Vec<Token>, p: usize) -> (r: Option<(Expr, usize)>)
    requires
        p <= ts.len(),
    ensures
        parsed(r, p_unary(tokens_view(ts@), p as int)),
        advanced(r, p, ts@.len(), true),
    decreases 10 * (ts.len() - p) + 4,
{
    if p < ts.len() {
        if let Token::Punct(op) = &ts[p] {
            let op = *op;
            if op == P_NOT || op == P_TILDE || op == P_MINUS || op == P_PLUS || op == P_INC || op == P_DEC || op == P_AMP {
                let (e, p2) = match unary(ts, p + 1) {
                    Some(x) => x,
                    None => return None,
                };
                return Some((Expr::Unary(op, Box::new(e)), p2));
            }
        }
    }
    if ts.len() > 2 && p < ts.len() - 2 {
        if let Token::Ident(tag) = &ts[p] {
            if punct_is(ts, p + 1, P_COLON) && !punct_is(ts, p + 2, P_COLON) {
                let ty = tag_type_chars(tag);
                let (e, p2) = match unary(ts, p + 2) {
                    Some(x) => x,
                    None => return None,
                };
                return Some((Expr::ViewAs(ty, Box::new(e)), p2));
            }
        }
    }
    postfix(ts, p)
}

fn postfix(ts: &Vec<Token>, p: usize) -> (r: Option<(Expr, usize)>)
    requires
        p <= ts.len(),
    ensures
        parsed(r, p_postfix(tokens_view(ts@), p as int)),
        advanced(r, p, ts@.len(), true),
    decreases 10 * (ts.len() - p) + 3,
{
    let (e, p1) = match primary(ts, p) {
        Some(x) => x,
        None => return None,
    };
    postfix_rest(ts, p1, e)
}

fn postfix_rest(ts: &Vec<Token>, p: usize, e: Expr) -> (r: Option<(Expr, usize)>)
    requires
        p <= ts.len(),
    ensures
        parsed(r, p_postfix_rest(tokens_view(ts@), p as int, expr_view(e))),
        advanced(r, p, ts@.len(), false),
    decreases 10 * (ts.len() - p) + 3,
{
    if punct_is(ts, p, P_LPAREN) {
        if punct_is(ts, p + 1, P_RPAREN) {
            let args: Vec<Expr> = Vec::new();
            assert(exprs_view(args@) =~= Seq::<SpecExpr>::empty());
            return postfix_rest(ts, p + 2, Expr::Call(Box::new(e), args));
        }
        let args: Vec<Expr> = Vec::new();
        assert(exprs_view(args@) =~= Seq::<SpecExpr>::empty());
        return call_args(ts, p + 1, e, args);
    }
    if punct_is(ts, p, P_LBRACKET) {
        let (idx, p2) = match ternary(ts, p + 1) {
            Some(x) => x,
            None => return None,
        };
        if !punct_is(ts, p2, P_RBRACKET) {
            return None;
        }
        return postfix_rest(ts, p2 + 1, Expr::Index(Box::new(e), Box::new(idx)));
    }
    if punct_is(ts, p, P_DOT) || punct_is(ts, p, P_SCOPE) {
        let op = if punct_is(ts, p, P_DOT) { P_DOT } else { P_SCOPE };
        if p + 1 < ts.len() {
            if let Token::Ident(n) = &ts[p + 1] {
                let name = clone_chars(n);
                return postfix_rest(ts, p + 2, Expr::Field(Box::new(e), op, name));
            }
        }
        return None;
    }
    if punct_is(ts, p, P_INC) || punct_is(ts, p, P_DEC) {
        let op = if punct_is(ts, p, P_INC) { P_INC } else { P_DEC };
        return postfix_rest(ts, p + 1, Expr::Postfix(op, Box::new(e)));
    }
    Some((e, p))
}

fn call_args(ts: &Vec<Token>, p: usize, f: Expr, args: Vec<Expr>) -> (r: Option<(Expr, usize)>)
    requires
        p <= ts.len(),
    ensures
        parsed(r, p_call_args(tokens_view(ts@), p as int, expr_view(f), exprs_view(args@))),
        advanced(r, p, ts@.len(), true),
    decreases 10 * (ts.len() - p) + 7,
{
    let (a, p1) = match ternary(ts, p) {
        Some(x) => x,
        None => return None,
    };
    let mut args = args;
    let ghost before = args@;
    args.push(a);
    assert(args@.drop_last() =~= before);
    assert(exprs_view(args@) == exprs_view(before).push(expr_view(a)));
    if punct_is(ts, p1, P_RPAREN) {
        return postfix_rest(ts, p1 + 1, Expr::Call(Box::new(f), args));
    }
    if punct_is(ts, p1, P_COMMA) {
        return call_args(ts, p1 + 1, f, args);
    }
    None
}

fn array_items(ts: &Vec<Token>, p: usize, items: Vec<Expr>) -> (r: Option<(Expr, usize)>)
    requires
        p <= ts.len(),
    ensures
        parsed(r, p_array(tokens_view(ts@), p as int, exprs_view(items@))),
        advanced(r, p, ts@.len(), true),
    decreases 10 * (ts.len() - p) + 7,
{
    if punct_is(ts, p, P_ELLIPSIS) {
        if punct_is(ts, p + 1, P_RBRACE) {
            return Some((Expr::Array(items, true), p + 2));
        }
        return None;
    }
    let (e, p1) = match ternary(ts, p) {
        Some(x) => x,
        None => return None,
    };
    let mut items = items;
    let ghost before = items@;
    items.push(e);
    assert(items@.drop_last() =~= before);
    assert(exprs_view(items@) == exprs_view(before).push(expr_view(e)));
    if punct_is(ts, p1, P_RBRACE) {
        return Some((Expr::Array(items, false), p1 + 1));
    }
    if punct_is(ts, p1, P_COMMA) {
        if punct_is(ts, p1 + 1, P_RBRACE) {
            return Some((Expr::Array(items, false), p1 + 2));
        }
        return array_items(ts, p1 + 1, items);
    }
    None
}

fn concat_strings_tail(ts: &Vec<Token>, q: usize, s: Vec<char>) -> (r: (Vec<char>, usize))
    requires
        q <= ts.len(),
    ensures
        str_concat(tokens_view(ts@), q as int, s@) == (r.0@, r.1 as int),
        q <= r.1 <= ts.len(),
    decreases ts.len() - q,
{
    if q < ts.len() {
        if let Token::Str(next) = &ts[q] {
            let mut joined: Vec<char> = Vec::new();
            let mut i: usize = 0;
            let n = if s.len() == 0 { 0 } else { s.len() - 1 };
            while i < n
                invariant
                    0 <= i <= n,
                    n == (if s.len() == 0 { 0 } else { s.len() - 1 }),
                    joined@ == s@.subrange(0, i as int),
                decreases n - i,
            {
                joined.push(s[i]);
                i = i + 1;
            }
            assert(joined@ =~= (if s@.len() == 0 { s@ } else { s@.take(s@.len() - 1) }));
            let ghost head = joined@;
            let mut k: usize = if next.len() == 0 { 0 } else { 1 };
            let start = k;
            while k < next.len()
                invariant
                    start == (if next.len() == 0 { 0usize } else { 1usize }),
                    start <= k <= next.len(),
                    joined@ == head + next@.subrange(start as int, k as int),
                decreases next.len() - k,
            {
                joined.push(next[k]);
                k = k + 1;
                assert(joined@ =~= head + next@.subrange(start as int, k as int));
            }
            assert(next@.subrange(start as int, next@.len() as int) =~= (if next@.len() == 0 { next@ } else { next@.skip(1) }));
            return concat_strings_tail(ts, q + 1, joined);
        }
    }
    (s, q)
}

fn scan_sizeof(ts: &Vec<Token>, q: usize, depth: usize, paren: bool) -> (r: usize)
    requires
        q <= ts.len(),
        depth <= q,
    ensures
        r == sizeof_end(tokens_view(ts@), q as int, depth as int, paren),
        q <= r <= ts.len(),
    decreases ts.len() - q,
{
    if q >= ts.len() {
        return q;
    }
    match &ts[q] {
        Token::Punct(k) => {
            let k = *k;
            if k == P_LPAREN || k == P_LBRACKET {
                return scan_sizeof(ts, q + 1, depth + 1, paren);
            }
            if k == P_RPAREN || k == P_RBRACKET {
                if depth == 0 {
                    return q;
                }
                return scan_sizeof(ts, q + 1, depth - 1, paren);
            }
            if k == P_DOT || k == P_SCOPE || depth > 0 || paren {
                return scan_sizeof(ts, q + 1, depth, paren);
            }
            q
        }
        Token::Ident(_) => scan_sizeof(ts, q + 1, depth, paren),
        _ => {
            if depth > 0 || paren {
                scan_sizeof(ts, q + 1, depth, paren)
            } else {
                q
            }
        }
    }
}

fn scan_view_type(ts: &Vec<Token>, q: usize, acc: Vec<char>) -> (r: Option<(Vec<char>, usize)>)
    requires
        q <= ts.len(),
    ensures
        match r {
            Some((ty, e)) => view_type(tokens_view(ts@), q as int, acc@) == Some((ty@, e as int)) && q <= e <= ts.len(),
            None => view_type(tokens_view(ts@), q as int, acc@) is None,
        },
    decreases ts.len() - q,
{
    if q >= ts.len() {
        return Some((acc, q));
    }
    match &ts[q] {
        Token::Punct(k) => {
            if *k == P_GT {
                return Some((acc, q));
            }
            let mut acc = acc;
            let piece = punct_chars(*k);
            append_chars(&mut acc, &piece);
            scan_view_type(ts, q + 1, acc)
        }
        Token::Ident(n) => {
            let mut acc = acc;
            append_chars(&mut acc, n);
            scan_view_type(ts, q + 1, acc)
        }
        _ => None,
    }
}

fn word_is(n: &Vec<char>, w: &[char]) -> (r: bool)
    ensures
        r == (n@ == w@),
{
    chars_eq(n.as_slice(), w)
}

#[verifier::spinoff_prover]
#[verifier::rlimit(40)]
fn primary(ts: &Vec<Token>, p: usize) -> (r: Option<(Expr, usize)>)
    requires
        p <= ts.len(),
    ensures
        parsed(r, p_primary(tokens_view(ts@), p as int)),
        advanced(r, p, ts@.len(), true),
    decreases 10 * (ts.len() - p) + 2,
{
    if p >= ts.len() {
        return None;
    }
    let p1 = p + 1;
    match &ts[p] {
        Token::Int(v) => Some((Expr::Int(*v), p1)),
        Token::Float(x) => Some((Expr::Float(clone_chars(x)), p1)),
        Token::Char(r, v) => Some((Expr::Char(clone_chars(r), *v), p1)),
        Token::Str(s) => {
            let (s2, q) = concat_strings_tail(ts, p1, clone_chars(s));
            Some((Expr::Str(s2), q))
        }
        Token::Ident(n) => {
            assert((&['t', 'r', 'u', 'e'])@ =~= kw_true());
            assert((&['f', 'a', 'l', 's', 'e'])@ =~= kw_false());
            assert((&['n', 'u', 'l', 'l'])@ =~= kw_null());
            assert((&['t', 'h', 'i', 's'])@ =~= kw_this());
            assert((&['d', 'e', 'f', 'i', 'n', 'e', 'd'])@ =~= kw_defined());
            assert((&['s', 'i', 'z', 'e', 'o', 'f'])@ =~= kw_sizeof());
            assert((&['v', 'i', 'e', 'w', '_', 'a', 's'])@ =~= kw_view_as());
            if word_is(n, &['t', 'r', 'u', 'e']) {
                Some((Expr::Bool(true), p1))
            } else if word_is(n, &['f', 'a', 'l', 's', 'e']) {
                Some((Expr::Bool(false), p1))
            } else if word_is(n, &['n', 'u', 'l', 'l']) {
                Some((Expr::Null, p1))
            } else if word_is(n, &['t', 'h', 'i', 's']) {
                Some((Expr::This, p1))
            } else if word_is(n, &['d', 'e', 'f', 'i', 'n', 'e', 'd']) {
                let paren = punct_is(ts, p1, P_LPAREN);
                let q = if paren { p1 + 1 } else { p1 };
                if q < ts.len() {
                    if let Token::Ident(m) = &ts[q] {
                        let name = clone_chars(m);
                        if paren {
                            if punct_is(ts, q + 1, P_RPAREN) {
                                return Some((Expr::Defined(name), q + 2));
                            }
                            return None;
                        }
                        return Some((Expr::Defined(name), q + 1));
                    }
                }
                None
            } else if word_is(n, &['s', 'i', 'z', 'e', 'o', 'f']) {
                let paren = punct_is(ts, p1, P_LPAREN);
                let start = if paren { p1 + 1 } else { p1 };
                let end = scan_sizeof(ts, start, 0, paren);
                let operand = render_token_range(ts, start, end);
                if paren {
                    if punct_is(ts, end, P_RPAREN) {
                        return Some((Expr::Sizeof(operand), end + 1));
                    }
                    return None;
                }
                Some((Expr::Sizeof(operand), end))
            } else if word_is(n, &['v', 'i', 'e', 'w', '_', 'a', 's']) {
                if !punct_is(ts, p1, P_LT) {
                    return None;
                }
                let (ty, q) = match scan_view_type(ts, p1 + 1, Vec::new()) {
                    Some(x) => x,
                    None => return None,
                };
                if punct_is(ts, q, P_GT) && punct_is(ts, q + 1, P_LPAREN) {
                    let (e, q2) = match ternary(ts, q + 2) {
                        Some(x) => x,
                        None => return None,
                    };
                    if punct_is(ts, q2, P_RPAREN) {
                        return Some((Expr::ViewAs(ty, Box::new(e)), q2 + 1));
                    }
                }
                None
            } else {
                Some((Expr::Name(clone_chars(n)), p1))
            }
        }
        Token::Punct(k) => {
            if *k == P_LPAREN {
                let (e, q) = match ternary(ts, p1) {
                    Some(x) => x,
                    None => return None,
                };
                if punct_is(ts, q, P_RPAREN) {
                    return Some((e, q + 1));
                }
                None
            } else if *k == P_LBRACE {
                if punct_is(ts, p1, P_RBRACE) {
                    let items: Vec<Expr> = Vec::new();
                    assert(exprs_view(items@) =~= Seq::<SpecExpr>::empty());
                    return Some((Expr::Array(items, false), p1 + 1));
                }
                let items: Vec<Expr> = Vec::new();
                assert(exprs_view(items@) =~= Seq::<SpecExpr>::empty());
                array_items(ts, p1, items)
            } else {
                None
            }
        }
    }
}

/// Parses a token sequence as a whole
pub fn parse_token_seq(ts: &Vec<Token>) -> (r: Option<Expr>)
    ensures
        match r {
            Some(e) => parse_tokens(tokens_view(ts@)) == Some(expr_view(e)),
            None => parse_tokens(tokens_view(ts@)) is None,
        },
{
    if ts.len() == 0 {
        return None;
    }
    match ternary(ts, 0) {
        Some((e, q)) => if q == ts.len() { Some(e) } else { None },
        None => None,
    }
}

/// Parses an expression's source text
pub fn parse(src: &str) -> (r: Option<Expr>)
    ensures
        match r {
            Some(e) => parse_source(src@) == Some(expr_view(e)),
            None => parse_source(src@) is None,
        },
{
    let ts = match tokenize(src) {
        Some(ts) => ts,
        None => return None,
    };
    parse_token_seq(&ts)
}


/// Maps old style tags (`Float:`, `String:`, `_:`) to new style types
pub fn old_tag_to_type(tag: &str) -> (r: String)
    ensures
        r@ == tag_type(tag@),
{
    let cs = chars_of(tag);
    let t = tag_type_chars(&cs);
    string_from_chars(t.as_slice())
}

} // verus!
