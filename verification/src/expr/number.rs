//! Numeric and character literals of constant expressions.

use vstd::prelude::*;

verus! {

/// Value of a digit in any radix up to 36 (letters in either case), 99 for
/// anything else
pub open spec fn digit_val(c: char) -> int {
    let u = c as u32;
    if 48 <= u && u <= 57 {
        u - 48
    } else if 97 <= u && u <= 122 {
        u - 87
    } else if 65 <= u && u <= 90 {
        u - 55
    } else {
        99
    }
}

fn digit_value(c: char) -> (r: u32)
    ensures
        r == digit_val(c),
{
    let u = c as u32;
    if 48 <= u && u <= 57 {
        u - 48
    } else if 97 <= u && u <= 122 {
        u - 87
    } else if 65 <= u && u <= 90 {
        u - 55
    } else {
        99
    }
}

/// Whether every character of `d` is a digit of `radix` (and there is one)
pub open spec fn digits_ok(d: Seq<char>, radix: int) -> bool {
    d.len() > 0 && forall|k: int| 0 <= k < d.len() ==> #[trigger] digit_val(d[k]) < radix
}

/// The number that the digits `d` write in `radix`
pub open spec fn digits_value(d: Seq<char>, radix: int) -> int
    decreases d.len(),
{
    if d.len() == 0 {
        0
    } else {
        digits_value(d.drop_last(), radix) * radix + digit_val(d.last())
    }
}

/// `v as i64` for a `u64` value
pub open spec fn wrap_i64(v: int) -> i64 {
    if v <= 0x7fff_ffff_ffff_ffff { v as i64 } else { (v - 0x1_0000_0000_0000_0000) as i64 }
}

/// Digits and radix of an integer literal (after `_` removal): `0x`, `0b`
/// and `0o` prefixes in either case select the radix
pub open spec fn radix_split(t: Seq<char>) -> (Seq<char>, int) {
    if t.len() >= 2 && t[0] == '0' && (t[1] == 'x' || t[1] == 'X') {
        (t.skip(2), 16)
    } else if t.len() >= 2 && t[0] == '0' && (t[1] == 'b' || t[1] == 'B') {
        (t.skip(2), 2)
    } else if t.len() >= 2 && t[0] == '0' && (t[1] == 'o' || t[1] == 'O') {
        (t.skip(2), 8)
    } else {
        (t, 10)
    }
}

/// Value of an integer literal as `u64::from_str_radix` reads it, cast to
/// `i64`; `None` when it isn't a number of that radix or overflows
pub open spec fn int_literal(t: Seq<char>) -> Option<i64> {
    let (d, radix) = radix_split(t);
    if digits_ok(d, radix) && digits_value(d, radix) <= 0xffff_ffff_ffff_ffff {
        Some(wrap_i64(digits_value(d, radix)))
    } else {
        None
    }
}

pub proof fn lemma_digits_grow(d: Seq<char>, radix: int, n: int)
    requires
        2 <= radix <= 16,
        0 <= n <= d.len(),
        forall|k: int| 0 <= k < d.len() ==> #[trigger] digit_val(d[k]) < radix,
    ensures
        0 <= digits_value(d.take(n), radix) <= digits_value(d, radix),
    decreases d.len(),
{
    lemma_digits_nonneg(d, radix);
    if n == d.len() {
        assert(d.take(n) =~= d);
    } else {
        let p = d.drop_last();
        assert forall|k: int| 0 <= k < p.len() implies #[trigger] digit_val(p[k]) < radix by {
            assert(p[k] == d[k]);
        }
        lemma_digits_grow(p, radix, n);
        assert(d.take(n) =~= p.take(n));
        lemma_digits_nonneg(p, radix);
        let v = digits_value(p, radix);
        assert(digit_val(d.last()) >= 0);
        assert(v * radix + digit_val(d.last()) >= v) by (nonlinear_arith)
            requires v >= 0, radix >= 2, digit_val(d.last()) >= 0;
    }
}

pub proof fn lemma_digits_nonneg(d: Seq<char>, radix: int)
    requires
        radix >= 2,
    ensures
        digits_value(d, radix) >= 0,
    decreases d.len(),
{
    if d.len() > 0 {
        lemma_digits_nonneg(d.drop_last(), radix);
        let v = digits_value(d.drop_last(), radix);
        assert(digit_val(d.last()) >= 0);
        assert(v * radix + digit_val(d.last()) >= 0) by (nonlinear_arith)
            requires v >= 0, radix >= 2, digit_val(d.last()) >= 0;
    }
}

/// Reads an integer literal like `u64::from_str_radix` does after the prefix
pub fn int_literal_value(t: &Vec<char>) -> (res: Option<i64>)
    ensures
        res == int_literal(t@),
{
    let (start, radix): (usize, u32) = if t.len() >= 2 && t[0] == '0' && (t[1] == 'x' || t[1] == 'X') {
        (2, 16)
    } else if t.len() >= 2 && t[0] == '0' && (t[1] == 'b' || t[1] == 'B') {
        (2, 2)
    } else if t.len() >= 2 && t[0] == '0' && (t[1] == 'o' || t[1] == 'O') {
        (2, 8)
    } else {
        (0, 10)
    };
    let ghost d = radix_split(t@).0;
    assert(d =~= t@.skip(start as int));
    assert(radix == radix_split(t@).1);
    if start >= t.len() {
        return None;
    }
    let mut v: u64 = 0;
    let mut i = start;
    while i < t.len()
        invariant
            start <= i <= t.len(),
            d == t@.skip(start as int),
            d == radix_split(t@).0,
            radix == radix_split(t@).1,
            2 <= radix <= 16,
            forall|k: int| 0 <= k < i - start ==> #[trigger] digit_val(d[k]) < radix,
            v == digits_value(d.take(i - start), radix as int),
        decreases t.len() - i,
    {
        let dv = digit_value(t[i]);
        if dv >= radix {
            assert(!digits_ok(d, radix as int)) by {
                assert(d[i - start] == t@[i as int]);
            }
            assert(int_literal(t@) == None::<i64>);
            return None;
        }
        let ghost prefix = d.take(i - start);
        assert(d.take(i - start + 1).drop_last() =~= prefix);
        assert(d.take(i - start + 1).last() == t@[i as int]);
        let m = v.checked_mul(radix as u64);
        let next = match m {
            Some(m) => m.checked_add(dv as u64),
            None => None,
        };
        match next {
            Some(n) => {
                v = n;
            }
            None => {
                proof {
                    let big = digits_value(d.take(i - start + 1), radix as int);
                    assert(big > 0xffff_ffff_ffff_ffff) by (nonlinear_arith)
                        requires
                            big == v * radix + dv,
                            v * radix > 0xffff_ffff_ffff_ffff || v * radix + dv > 0xffff_ffff_ffff_ffff;
                    if digits_ok(d, radix as int) {
                        lemma_digits_grow(d, radix as int, i - start + 1);
                    }
                    assert(int_literal(t@) == None::<i64>);
                }
                return None;
            }
        }
        i = i + 1;
    }
    assert(d.take(i - start) =~= d);
    if v <= 0x7fff_ffff_ffff_ffff {
        Some(v as i64)
    } else {
        let w: u64 = 0xffff_ffff_ffff_ffff - v;
        Some(-(w as i64) - 1)
    }
}

/// Number of ASCII digits in `t` from `i` on
pub open spec fn digit_run(t: Seq<char>, i: int) -> int
    decreases t.len() - i,
{
    if i < 0 || i >= t.len() || !(48 <= (t[i] as u32) && (t[i] as u32) <= 57) {
        0
    } else {
        1 + digit_run(t, i + 1)
    }
}

/// Whether `t` is a float literal that `f64::from_str` accepts among those
/// that start with a digit and hold a point: `digits . digits [e [sign] digits]`
pub open spec fn float_syntax(t: Seq<char>) -> bool {
    let a = digit_run(t, 0);
    let b = a + 1 + digit_run(t, a + 1);
    &&& a > 0
    &&& a < t.len() && t[a] == '.'
    &&& (b == t.len() || (b < t.len() && (t[b] == 'e' || t[b] == 'E') && {
        let c = if b + 1 < t.len() && (t[b + 1] == '+' || t[b + 1] == '-') { b + 2 } else { b + 1 };
        digit_run(t, c) > 0 && c + digit_run(t, c) == t.len()
    }))
}

pub proof fn lemma_digit_run(t: Seq<char>, i: int)
    requires
        0 <= i,
    ensures
        0 <= digit_run(t, i),
        i <= t.len() ==> i + digit_run(t, i) <= t.len(),
        i + digit_run(t, i) < t.len() ==> !(48 <= (t[i + digit_run(t, i)] as u32) && (t[i + digit_run(t, i)] as u32) <= 57),
    decreases t.len() - i,
{
    if i < t.len() && 48 <= (t[i] as u32) && (t[i] as u32) <= 57 {
        lemma_digit_run(t, i + 1);
    }
}

pub fn count_digits(t: &Vec<char>, i: usize) -> (r: usize)
    requires
        i <= t.len(),
    ensures
        r == digit_run(t@, i as int),
        i + r <= t.len(),
{
    proof {
        lemma_digit_run(t@, i as int);
    }
    let mut k = i;
    while k < t.len() && 48 <= (t[k] as u32) && (t[k] as u32) <= 57
        invariant
            i <= k <= t.len(),
            digit_run(t@, i as int) == (k - i) + digit_run(t@, k as int),
        decreases t.len() - k,
    {
        k = k + 1;
    }
    k - i
}

pub fn is_float_literal(t: &Vec<char>) -> (r: bool)
    ensures
        r == float_syntax(t@),
{
    let a = count_digits(t, 0);
    if a == 0 || a >= t.len() || t[a] != '.' {
        return false;
    }
    let b = a + 1 + count_digits(t, a + 1);
    if b == t.len() {
        return true;
    }
    if !(t[b] == 'e' || t[b] == 'E') {
        return false;
    }
    let c = if b + 1 < t.len() && (t[b + 1] == '+' || t[b + 1] == '-') { b + 2 } else { b + 1 };
    let n = count_digits(t, c);
    n > 0 && c + n == t.len()
}

/// Value of a character literal's raw text: quotes at either end are
/// stripped, then the first character (or escape) is read
pub open spec fn char_literal(raw: Seq<char>) -> i64 {
    let a = quote_run(raw, 0);
    let inner0 = raw.skip(a);
    let inner = inner0.take(inner0.len() - back_quote_run(inner0, inner0.len() as int));
    if inner.len() == 0 {
        0
    } else if inner[0] == '\\' {
        if inner.len() == 1 {
            92
        } else {
            escape_value(inner[1])
        }
    } else {
        inner[0] as i64
    }
}

pub open spec fn escape_value(c: char) -> i64 {
    if c == 'n' { 10 } else if c == 'r' { 13 } else if c == 't' { 9 } else if c == 'a' { 7 } else if c == 'b' { 8 } else if c == 'e' { 27 } else if c == 'f' { 12 } else if c == 'v' { 11 } else if c == '0' { 0 } else { c as i64 }
}

/// Number of `'` characters from `i` on
pub open spec fn quote_run(t: Seq<char>, i: int) -> int
    decreases t.len() - i,
{
    if i < 0 || i >= t.len() || t[i] != '\'' { 0 } else { 1 + quote_run(t, i + 1) }
}

/// Number of `'` characters ending at `j`
pub open spec fn back_quote_run(t: Seq<char>, j: int) -> int
    decreases j,
{
    if j <= 0 || j > t.len() || t[j - 1] != '\'' { 0 } else { 1 + back_quote_run(t, j - 1) }
}

proof fn lemma_quote_runs(t: Seq<char>, i: int, j: int)
    requires
        0 <= i <= t.len(),
        0 <= j <= t.len(),
    ensures
        0 <= quote_run(t, i) <= t.len() - i,
        0 <= back_quote_run(t, j) <= j,
    decreases t.len() - i + j,
{
    if i < t.len() && t[i] == '\'' {
        lemma_quote_runs(t, i + 1, j);
    }
    if j > 0 && t[j - 1] == '\'' {
        lemma_quote_runs(t, i, j - 1);
    }
}

fn escape(c: char) -> (r: i64)
    ensures
        r == escape_value(c),
{
    if c == 'n' { 10 } else if c == 'r' { 13 } else if c == 't' { 9 } else if c == 'a' { 7 } else if c == 'b' { 8 } else if c == 'e' { 27 } else if c == 'f' { 12 } else if c == 'v' { 11 } else if c == '0' { 0 } else { c as i64 }
}

pub fn char_value(raw: &Vec<char>) -> (r: i64)
    ensures
        r == char_literal(raw@),
{
    let mut a: usize = 0;
    while a < raw.len() && raw[a] == '\''
        invariant
            0 <= a <= raw.len(),
            quote_run(raw@, 0) == a + quote_run(raw@, a as int),
        decreases raw.len() - a,
    {
        a = a + 1;
    }
    let ghost inner0 = raw@.skip(a as int);
    let mut b: usize = raw.len();
    while b > a && raw[b - 1] == '\''
        invariant
            a <= b <= raw.len(),
            inner0 == raw@.skip(a as int),
            back_quote_run(inner0, inner0.len() as int) == (raw.len() - b) + back_quote_run(inner0, b - a),
        decreases b,
    {
        assert(inner0[b - a - 1] == raw@[b - 1]);
        b = b - 1;
    }
    assert(b == a || raw@[b - 1] != '\'');
    assert(back_quote_run(inner0, b - a) == 0) by {
        if b > a {
            assert(inner0[b - a - 1] == raw@[b - 1]);
        }
    }
    assert(inner0.take(inner0.len() - back_quote_run(inner0, inner0.len() as int)) =~= raw@.subrange(a as int, b as int));
    if b == a {
        0
    } else if raw[a] == '\\' {
        if b - a == 1 {
            92
        } else {
            escape(raw[a + 1])
        }
    } else {
        raw[a] as i64
    }
}

} // verus!
