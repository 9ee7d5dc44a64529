//! Rendering of expressions the way the old docparse tool printed them.

use vstd::prelude::*;
use crate::text::{chars_of, string_from_chars, char_is_whitespace, unicode_white_space};
use super::parse::{Expr, SpecExpr, expr_view, exprs_view, parse, parse_source, punct_str, punct_chars,
    float_token_text, float_token_chars, clone_chars, append_chars};
use super::format::{int_text, int_chars, nat_digits, law_decimal_text};
use super::number::digits_value;
use super::token::{P_LT, P_LE, P_GT, P_GE, P_EQEQ, P_NE, P_ANDAND, P_OROR, P_PLUS, P_MINUS, P_STAR, P_SLASH,
    P_PERCENT, P_NOT, P_TILDE, P_AMP, P_OR, P_XOR, P_SHL, P_SHR, P_USHR};

verus! {

/// Access to macro definitions needed while rendering
pub trait MacroLookup {
    /// The replacement text of an object-like macro visible at `offset`
    spec fn spec_lookup(&self, name: Seq<char>, offset: usize) -> Option<Seq<char>>;

    /// Returns the replacement text of an object-like macro visible at `offset`
    fn lookup(&self, name: &Vec<char>, offset: usize) -> (r: Option<String>)
        ensures
            match r {
                Some(v) => self.spec_lookup(name@, offset) == Some(v@),
                None => self.spec_lookup(name@, offset) is None,
            };
}

/// A lookup that knows no macros
pub struct NoMacros;

impl MacroLookup for NoMacros {
    open spec fn spec_lookup(&self, name: Seq<char>, offset: usize) -> Option<Seq<char>> {
        None
    }

    fn lookup(&self, name: &Vec<char>, offset: usize) -> (r: Option<String>) {
        None
    }
}

/// White space squeezing: runs of white space become one space, leading
/// and trailing white space is dropped (`split_whitespace` joined by ` `).
/// `state` is 0 before the first word, 1 inside a word, 2 after one.
pub open spec fn squeeze(s: Seq<char>, i: int, state: int) -> Seq<char>
    decreases s.len() - i,
{
    if i < 0 || i >= s.len() {
        Seq::empty()
    } else if unicode_white_space(s[i]) {
        squeeze(s, i + 1, if state == 0 { 0 } else { 2 })
    } else {
        (if state == 2 { seq![' '] } else { Seq::empty() }) + seq![s[i]] + squeeze(s, i + 1, 1)
    }
}

/// An expression rendered at macro expansion depth `depth`
pub open spec fn render_expr<M: MacroLookup>(m: M, offset: usize, depth: int, e: SpecExpr) -> Seq<char>
    decreases 16 - depth, 1int, e,
{
    match e {
        SpecExpr::Int(v) => int_text(v),
        SpecExpr::Float(x) => float_token_text(x),
        SpecExpr::Str(s) => s,
        SpecExpr::Char(r, _) => r,
        SpecExpr::Bool(b) => if b { seq!['t', 'r', 'u', 'e'] } else { seq!['f', 'a', 'l', 's', 'e'] },
        SpecExpr::Null => seq!['n', 'u', 'l', 'l'],
        SpecExpr::This => seq!['t', 'h', 'i', 's'],
        SpecExpr::Name(n) => if depth < 16 && m.spec_lookup(n, offset) is Some {
            let v = m.spec_lookup(n, offset)->Some_0;
            match parse_source(v) {
                Some(inner) => render_expr(m, offset, depth + 1, inner),
                None => squeeze(v, 0, 0),
            }
        } else {
            n
        },
        SpecExpr::Unary(op, a) => punct_str(op) + render_expr(m, offset, depth, *a),
        SpecExpr::Postfix(op, a) => render_expr(m, offset, depth, *a) + punct_str(op),
        SpecExpr::Binary(op, l, r) => render_expr(m, offset, depth, *l) + seq![' '] + punct_str(op) + seq![' ']
            + render_expr(m, offset, depth, *r),
        SpecExpr::Ternary(c, a, b) => render_expr(m, offset, depth, *c) + seq![' ', '?', ' ']
            + render_expr(m, offset, depth, *a) + seq![' ', ':', ' '] + render_expr(m, offset, depth, *b),
        SpecExpr::Call(f, args) => render_expr(m, offset, depth, *f) + seq!['('] + render_list(m, offset, depth, args)
            + seq![')'],
        SpecExpr::Index(a, i) => render_expr(m, offset, depth, *a) + seq!['['] + render_expr(m, offset, depth, *i)
            + seq![']'],
        SpecExpr::Field(b, op, n) => render_expr(m, offset, depth, *b) + punct_str(op) + n,
        SpecExpr::ViewAs(t, a) => seq!['v', 'i', 'e', 'w', '_', 'a', 's', '<'] + t + seq!['>', '(']
            + render_expr(m, offset, depth, *a) + seq![')'],
        SpecExpr::Sizeof(s) => seq!['s', 'i', 'z', 'e', 'o', 'f', '('] + s + seq![')'],
        SpecExpr::Defined(n) => seq!['d', 'e', 'f', 'i', 'n', 'e', 'd', ' '] + n,
        SpecExpr::Array(items, repeat) => if items.len() == 0 {
            seq!['{', '}']
        } else {
            seq!['{', ' '] + render_list(m, offset, depth, items) + (if repeat { seq![',', ' ', '.', '.', '.'] } else { Seq::empty() })
                + seq![' ', '}']
        },
    }
}

/// Expressions rendered and separated by `, `
pub open spec fn render_list<M: MacroLookup>(m: M, offset: usize, depth: int, es: Seq<SpecExpr>) -> Seq<char>
    decreases 16 - depth, 1int, es,
{
    if es.len() == 0 {
        Seq::empty()
    } else if es.len() == 1 {
        render_expr(m, offset, depth, es[0])
    } else {
        render_list(m, offset, depth, es.drop_last()) + seq![',', ' '] + render_expr(m, offset, depth, es.last())
    }
}

/// Source text rendered: parsed and rendered, or white space normalized
/// when it doesn't parse
pub open spec fn render_source<M: MacroLookup>(m: M, offset: usize, depth: int, src: Seq<char>) -> Seq<char> {
    match parse_source(src) {
        Some(e) => render_expr(m, offset, depth, e),
        None => squeeze(src, 0, 0),
    }
}


pub proof fn lemma_exprs_view(es: Seq<Expr>)
    ensures
        exprs_view(es).len() == es.len(),
        forall|i: int| 0 <= i < es.len() ==> #[trigger] exprs_view(es)[i] == expr_view(es[i]),
    decreases es.len(),
{
    if es.len() > 0 {
        lemma_exprs_view(es.drop_last());
    }
}

fn squeeze_chars(s: &Vec<char>) -> (r: Vec<char>)
    ensures
        r@ == squeeze(s@, 0, 0),
{
    let mut out: Vec<char> = Vec::new();
    let mut state: u8 = 0;
    let mut i: usize = 0;
    while i < s.len()
        invariant
            0 <= i <= s.len(),
            state <= 2,
            squeeze(s@, 0, 0) == out@ + squeeze(s@, i as int, state as int),
        decreases s.len() - i,
    {
        let c = s[i];
        if char_is_whitespace(c) {
            state = if state == 0 { 0 } else { 2 };
        } else {
            if state == 2 {
                out.push(' ');
            }
            out.push(c);
            state = 1;
        }
        i = i + 1;
    }
    assert(out@ + squeeze(s@, i as int, state as int) =~= out@);
    out
}

fn push_str(out: &mut Vec<char>, w: &[char])
    ensures
        final(out)@ == old(out)@ + w@,
{
    let mut i: usize = 0;
    while i < w.len()
        invariant
            0 <= i <= w.len(),
            out@ == old(out)@ + w@.subrange(0, i as int),
        decreases w.len() - i,
    {
        out.push(w[i]);
        i = i + 1;
        assert(out@ =~= old(out)@ + w@.subrange(0, i as int));
    }
    assert(w@.subrange(0, w@.len() as int) =~= w@);
}

fn render_rec<M: MacroLookup>(m: &M, offset: usize, depth: usize, e: &Expr) -> (r: Vec<char>)
    ensures
        r@ == render_expr(*m, offset, depth as int, expr_view(*e)),
    decreases 16 - depth, 1int, *e,
{
    let mut out: Vec<char> = Vec::new();
    match e {
        Expr::Int(v) => int_chars(*v),
        Expr::Float(x) => float_token_chars(x),
        Expr::Str(t) => clone_chars(t),
        Expr::Char(t, _) => clone_chars(t),
        Expr::Bool(b) => {
            if *b {
                push_str(&mut out, &['t', 'r', 'u', 'e']);
                assert(out@ =~= seq!['t', 'r', 'u', 'e']);
            } else {
                push_str(&mut out, &['f', 'a', 'l', 's', 'e']);
                assert(out@ =~= seq!['f', 'a', 'l', 's', 'e']);
            }
            out
        }
        Expr::Null => {
            push_str(&mut out, &['n', 'u', 'l', 'l']);
            assert(out@ =~= seq!['n', 'u', 'l', 'l']);
            out
        }
        Expr::This => {
            push_str(&mut out, &['t', 'h', 'i', 's']);
            assert(out@ =~= seq!['t', 'h', 'i', 's']);
            out
        }
        Expr::Name(n) => {
            if depth < 16 {
                match m.lookup(n, offset) {
                    Some(v) => {
                        return match parse(v.as_str()) {
                            Some(inner) => render_rec(m, offset, depth + 1, &inner),
                            None => {
                                let cs = chars_of(v.as_str());
                                squeeze_chars(&cs)
                            }
                        };
                    }
                    None => {}
                }
            }
            clone_chars(n)
        }
        Expr::Unary(op, a) => {
            let mut out = punct_chars(*op);
            let inner = render_rec(m, offset, depth, a);
            append_chars(&mut out, &inner);
            out
        }
        Expr::Postfix(op, a) => {
            let mut out = render_rec(m, offset, depth, a);
            let o = punct_chars(*op);
            append_chars(&mut out, &o);
            out
        }
        Expr::Binary(op, l, r) => {
            let mut out = render_rec(m, offset, depth, l);
            out.push(' ');
            let o = punct_chars(*op);
            append_chars(&mut out, &o);
            out.push(' ');
            let rr = render_rec(m, offset, depth, r);
            append_chars(&mut out, &rr);
            assert(out@ =~= render_expr(*m, offset, depth as int, expr_view(**l)) + seq![' '] + punct_str(*op) + seq![' ']
                + render_expr(*m, offset, depth as int, expr_view(**r)));
            out
        }
        Expr::Ternary(c, a, b) => {
            let mut out = render_rec(m, offset, depth, c);
            push_str(&mut out, &[' ', '?', ' ']);
            let ra = render_rec(m, offset, depth, a);
            append_chars(&mut out, &ra);
            push_str(&mut out, &[' ', ':', ' ']);
            let rb = render_rec(m, offset, depth, b);
            append_chars(&mut out, &rb);
            assert((&[' ', '?', ' '])@ =~= seq![' ', '?', ' ']);
            assert((&[' ', ':', ' '])@ =~= seq![' ', ':', ' ']);
            out
        }
        Expr::Call(f, args) => {
            let mut out = render_rec(m, offset, depth, f);
            out.push('(');
            let list = render_items(m, offset, depth, args);
            append_chars(&mut out, &list);
            out.push(')');
            out
        }
        Expr::Index(a, i) => {
            let mut out = render_rec(m, offset, depth, a);
            out.push('[');
            let ri = render_rec(m, offset, depth, i);
            append_chars(&mut out, &ri);
            out.push(']');
            out
        }
        Expr::Field(b, op, n) => {
            let mut out = render_rec(m, offset, depth, b);
            let o = punct_chars(*op);
            append_chars(&mut out, &o);
            append_chars(&mut out, n);
            out
        }
        Expr::ViewAs(t, a) => {
            push_str(&mut out, &['v', 'i', 'e', 'w', '_', 'a', 's', '<']);
            append_chars(&mut out, t);
            push_str(&mut out, &['>', '(']);
            let ra = render_rec(m, offset, depth, a);
            append_chars(&mut out, &ra);
            out.push(')');
            assert((&['v', 'i', 'e', 'w', '_', 'a', 's', '<'])@ =~= seq!['v', 'i', 'e', 'w', '_', 'a', 's', '<']);
            assert((&['>', '('])@ =~= seq!['>', '(']);
            out
        }
        Expr::Sizeof(t) => {
            push_str(&mut out, &['s', 'i', 'z', 'e', 'o', 'f', '(']);
            append_chars(&mut out, t);
            out.push(')');
            assert((&['s', 'i', 'z', 'e', 'o', 'f', '('])@ =~= seq!['s', 'i', 'z', 'e', 'o', 'f', '(']);
            out
        }
        Expr::Defined(n) => {
            push_str(&mut out, &['d', 'e', 'f', 'i', 'n', 'e', 'd', ' ']);
            append_chars(&mut out, n);
            assert((&['d', 'e', 'f', 'i', 'n', 'e', 'd', ' '])@ =~= seq!['d', 'e', 'f', 'i', 'n', 'e', 'd', ' ']);
            out
        }
        Expr::Array(items, repeat) => {
            if items.len() == 0 {
                proof {
                    lemma_exprs_view(items@);
                }
                out.push('{');
                out.push('}');
                assert(out@ =~= seq!['{', '}']);
                return out;
            }
            out.push('{');
            out.push(' ');
            let list = render_items(m, offset, depth, items);
            append_chars(&mut out, &list);
            if *repeat {
                push_str(&mut out, &[',', ' ', '.', '.', '.']);
                assert((&[',', ' ', '.', '.', '.'])@ =~= seq![',', ' ', '.', '.', '.']);
            }
            out.push(' ');
            out.push('}');
            proof {
                lemma_exprs_view(items@);
            }
            out
        }
    }
}

fn render_items<M: MacroLookup>(m: &M, offset: usize, depth: usize, items: &Vec<Expr>) -> (r: Vec<char>)
    ensures
        r@ == render_list(*m, offset, depth as int, exprs_view(items@)),
    decreases 16 - depth, 1int, *items,
{
    proof {
        lemma_exprs_view(items@);
    }
    let mut out: Vec<char> = Vec::new();
    let mut k: usize = 0;
    assert(exprs_view(items@).subrange(0, 0) =~= Seq::<SpecExpr>::empty());
    while k < items.len()
        invariant
            0 <= k <= items.len(),
            exprs_view(items@).len() == items.len(),
            forall|i: int| 0 <= i < items.len() ==> #[trigger] exprs_view(items@)[i] == expr_view(items@[i]),
            out@ == render_list(*m, offset, depth as int, exprs_view(items@).subrange(0, k as int)),
        decreases items.len() - k,
    {
        let ghost sub = exprs_view(items@).subrange(0, k + 1);
        assert(sub.drop_last() =~= exprs_view(items@).subrange(0, k as int));
        assert(sub.last() == expr_view(items@[k as int]));
        if k > 0 {
            out.push(',');
            out.push(' ');
        } else {
            assert(sub =~= seq![expr_view(items@[0])]);
        }
        assert(decreases_to!(*items => items@[k as int]));
        let piece = render_rec(m, offset, depth, &items[k]);
        append_chars(&mut out, &piece);
        k = k + 1;
    }
    assert(exprs_view(items@).subrange(0, items.len() as int) =~= exprs_view(items@));
    out
}

pub struct Renderer<'m, M: MacroLookup> {
    pub macros: &'m M,
    /// Byte offset where the expression appears (macros defined later aren't visible)
    pub offset: usize,
    depth: usize,
}

impl<'m, M: MacroLookup> Renderer<'m, M> {
    pub closed spec fn spec_depth(&self) -> usize {
        self.depth
    }

    pub closed spec fn spec_macros(&self) -> &'m M {
        self.macros
    }

    pub closed spec fn spec_offset(&self) -> usize {
        self.offset
    }

    pub fn new(macros: &'m M, offset: usize) -> (r: Self)
        ensures
            r.spec_macros() == macros,
            r.spec_offset() == offset,
            r.spec_depth() == 0,
    {
        Renderer { macros, offset, depth: 0 }
    }

    /// Renders an expression's source text. Falls back to the whitespace
    /// normalized source when it can't be parsed.
    pub fn render_src(&mut self, src: &str) -> (r: String)
        ensures
            r@ == render_source(*old(self).spec_macros(), old(self).spec_offset(), old(self).spec_depth() as int, src@),
            *final(self) == *old(self),
    {
        let out = match parse(src) {
            Some(e) => render_rec(self.macros, self.offset, self.depth, &e),
            None => {
                let cs = chars_of(src);
                squeeze_chars(&cs)
            }
        };
        string_from_chars(out.as_slice())
    }

    pub fn render(&mut self, e: &Expr) -> (r: String)
        ensures
            r@ == render_expr(*old(self).spec_macros(), old(self).spec_offset(), old(self).spec_depth() as int, expr_view(*e)),
            *final(self) == *old(self),
    {
        let out = render_rec(self.macros, self.offset, self.depth, e);
        string_from_chars(out.as_slice())
    }
}

/// Literals render as their own text: a boolean as Rust prints it, `null`
/// and `this` as written, and strings and characters as they were written
pub proof fn law_literals_rendered<M: MacroLookup>(m: M, offset: usize, depth: int, b: bool, s: Seq<char>, v: i64)
    ensures
        render_expr(m, offset, depth, SpecExpr::Bool(b)) == if b { seq!['t', 'r', 'u', 'e'] } else { seq!['f', 'a', 'l',
            's', 'e'] },
        render_expr(m, offset, depth, SpecExpr::Null) == seq!['n', 'u', 'l', 'l'],
        render_expr(m, offset, depth, SpecExpr::This) == seq!['t', 'h', 'i', 's'],
        render_expr(m, offset, depth, SpecExpr::Str(s)) == s,
        render_expr(m, offset, depth, SpecExpr::Char(s, v)) == s,
        v >= 0 ==> digits_value(render_expr(m, offset, depth, SpecExpr::Int(v)), 10) == v,
        v < 0 ==> render_expr(m, offset, depth, SpecExpr::Int(v))[0] == '-' && digits_value(
            render_expr(m, offset, depth, SpecExpr::Int(v)).drop_first(), 10) == -v,
        forall|i: int| (if v < 0 { 1int } else { 0 }) <= i < render_expr(m, offset, depth, SpecExpr::Int(v)).len()
            ==> '0' <= #[trigger] render_expr(m, offset, depth, SpecExpr::Int(v))[i] <= '9',
{
    if v >= 0 {
        law_decimal_text(v as nat);
    } else {
        law_decimal_text((-(v as int)) as nat);
        let t = render_expr(m, offset, depth, SpecExpr::Int(v));
        assert(t.drop_first() =~= nat_digits((-(v as int)) as nat));
        assert forall|i: int| 1 <= i < t.len() implies '0' <= #[trigger] t[i] <= '9' by {
            assert(t[i] == t.drop_first()[i - 1]);
        }
    }
}

/// Each operator is written as in SourcePawn
pub proof fn law_operator_texts()
    ensures
        punct_str(P_LT) == seq!['<'],
        punct_str(P_LE) == seq!['<', '='],
        punct_str(P_GT) == seq!['>'],
        punct_str(P_GE) == seq!['>', '='],
        punct_str(P_EQEQ) == seq!['=', '='],
        punct_str(P_NE) == seq!['!', '='],
        punct_str(P_ANDAND) == seq!['&', '&'],
        punct_str(P_OROR) == seq!['|', '|'],
        punct_str(P_PLUS) == seq!['+'],
        punct_str(P_MINUS) == seq!['-'],
        punct_str(P_STAR) == seq!['*'],
        punct_str(P_SLASH) == seq!['/'],
        punct_str(P_PERCENT) == seq!['%'],
        punct_str(P_NOT) == seq!['!'],
        punct_str(P_TILDE) == seq!['~'],
        punct_str(P_AMP) == seq!['&'],
        punct_str(P_OR) == seq!['|'],
        punct_str(P_XOR) == seq!['^'],
        punct_str(P_SHL) == seq!['<', '<'],
        punct_str(P_SHR) == seq!['>', '>'],
        punct_str(P_USHR) == seq!['>', '>', '>'],
{
}

} // verus!
