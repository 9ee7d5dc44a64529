//! Decimal rendering of integer and float literals.

use vstd::prelude::*;
use super::number::{lemma_digits_nonneg, digit_run, digits_value, digit_val, float_syntax, count_digits, lemma_digit_run};

verus! {

/// The decimal digit character for `d` (0 to 9)
pub open spec fn digit_char(d: int) -> char {
    ((d + 48) as u8) as char
}

/// Decimal digits of a natural number, most significant first
pub open spec fn nat_digits(n: nat) -> Seq<char>
    decreases n,
{
    if n < 10 {
        seq![digit_char(n as int)]
    } else {
        nat_digits(n / 10).push(digit_char((n % 10) as int))
    }
}

proof fn lemma_nat_digits(n: nat)
    ensures
        digits_value(nat_digits(n), 10) == n,
        nat_digits(n).len() > 0,
        forall|i: int| 0 <= i < nat_digits(n).len() ==> '0' <= #[trigger] nat_digits(n)[i] <= '9',
        n > 0 ==> nat_digits(n)[0] != '0',
    decreases n,
{
    if n < 10 {
        let c = digit_char(n as int);
        assert(c as u32 == n + 48);
        assert(nat_digits(n).drop_last() =~= Seq::<char>::empty());
        assert(digit_val(c) == n);
        assert(digits_value(nat_digits(n), 10) == digits_value(Seq::<char>::empty(), 10) * 10 + digit_val(c));
        assert(digits_value(nat_digits(n), 10) == n);
    } else {
        lemma_nat_digits(n / 10);
        let d = nat_digits(n / 10);
        let c = digit_char((n % 10) as int);
        assert(nat_digits(n).drop_last() == d);
        assert(c as u32 == n % 10 + 48);
        assert(digit_val(c) == n % 10);
        assert(digits_value(nat_digits(n), 10) == digits_value(d, 10) * 10 + digit_val(c));
        assert((n / 10) * 10 + n % 10 == n) by (nonlinear_arith);
        assert(digits_value(nat_digits(n), 10) == n);
        assert(n / 10 > 0);
        assert(nat_digits(n)[0] == d[0]);
    }
}

/// A natural number's text is decimal digits, with no leading zero, whose
/// value is the number
pub proof fn law_decimal_text(n: nat)
    ensures
        digits_value(nat_digits(n), 10) == n,
        nat_digits(n).len() > 0,
        forall|i: int| 0 <= i < nat_digits(n).len() ==> '0' <= #[trigger] nat_digits(n)[i] <= '9',
        n > 0 ==> nat_digits(n)[0] != '0',
{
    lemma_nat_digits(n);
}

/// `i64::to_string`
pub open spec fn int_text(v: i64) -> Seq<char> {
    if v < 0 {
        seq!['-'] + nat_digits((-(v as int)) as nat)
    } else {
        nat_digits(v as nat)
    }
}

fn digit(d: u64) -> (c: char)
    requires
        d < 10,
    ensures
        c == digit_char(d as int),
{
    ((d as u8) + 48) as char
}

fn u64_digits(n: u64) -> (r: Vec<char>)
    ensures
        r@ == nat_digits(n as nat),
    decreases n,
{
    if n < 10 {
        let mut v = Vec::new();
        v.push(digit(n));
        v
    } else {
        let mut v = u64_digits(n / 10);
        v.push(digit(n % 10));
        v
    }
}

/// Renders an `i64` in decimal
pub fn int_chars(v: i64) -> (r: Vec<char>)
    ensures
        r@ == int_text(v),
{
    if v < 0 {
        let w = v as i128;
        let mag = (-w) as u64;
        let mut out = Vec::new();
        out.push('-');
        let mut d = u64_digits(mag);
        out.append(&mut d);
        out
    } else {
        u64_digits(v as u64)
    }
}

/// Exponents are read up to this magnitude; beyond it every literal is
/// either zero or infinite at six decimals
pub const EXP_CAP: u64 = 1_000_000_000;

/// The digits and the position of the decimal point within them of a float
/// literal `int . frac [e exp]`: the value is `0.D * 10^point` shifted, i.e.
/// `D` read as an integer times `10^(point - D.len())`
pub open spec fn float_parts(t: Seq<char>) -> (Seq<char>, int) {
    let a = digit_run(t, 0);
    let b = a + 1 + digit_run(t, a + 1);
    let digits = t.subrange(0, a) + t.subrange(a + 1, b);
    let e = if b >= t.len() {
        0
    } else {
        let neg = b + 1 < t.len() && t[b + 1] == '-';
        let c = if b + 1 < t.len() && (t[b + 1] == '+' || t[b + 1] == '-') { b + 2 } else { b + 1 };
        let v = digits_value(t.subrange(c, t.len() as int), 10);
        let m = if v > EXP_CAP { EXP_CAP as int } else { v };
        if neg { -m } else { m }
    };
    (digits, a + e)
}

/// Index of the first digit other than `0` from `k` on
pub open spec fn first_nonzero(d: Seq<char>, k: int) -> int
    decreases d.len() - k,
{
    if k < 0 || k >= d.len() || d[k] != '0' { k } else { first_nonzero(d, k + 1) }
}

/// `n` zero digits
pub open spec fn zeros(n: int) -> Seq<char> {
    Seq::new(if n < 0 { 0 } else { n as nat }, |i: int| '0')
}

/// Adds one to a decimal digit string
pub open spec fn increment(s: Seq<char>) -> Seq<char>
    decreases s.len(),
{
    if s.len() == 0 {
        seq!['1']
    } else if (s.last() as u32) == 57 {
        increment(s.drop_last()).push('0')
    } else {
        s.drop_last().push(digit_char(digit_val(s.last()) + 1))
    }
}

/// Digits of the literal's value times a million, rounded half up
pub open spec fn scaled_digits(d: Seq<char>, point: int) -> Seq<char> {
    let q = point + 6;
    let kept = if q <= 0 { Seq::empty() } else if q >= d.len() { d + zeros(q - d.len()) } else { d.subrange(0, q) };
    let up = 0 <= q < d.len() && (d[q] as u32) >= 53;
    if up { increment(kept) } else { kept }
}

/// `d` without its leading zeros, keeping one digit
pub open spec fn strip_zeros(d: Seq<char>) -> Seq<char> {
    let z = first_nonzero(d, 0);
    if z >= d.len() { seq!['0'] } else { d.skip(z) }
}

/// A float literal rendered with six decimals, as `{:.6}` prints it for
/// values that 17 significant digits hold exactly; `inf` beyond 309
/// integer digits
pub open spec fn float_text(t: Seq<char>) -> Seq<char> {
    let (d, point) = float_parts(t);
    let z = first_nonzero(d, 0);
    if z < d.len() && point - z > 309 {
        seq!['i', 'n', 'f']
    } else if z >= d.len() {
        seq!['0', '.', '0', '0', '0', '0', '0', '0']
    } else {
        let n = scaled_digits(d, point);
        let p = zeros(7 - n.len()) + n;
        strip_zeros(p.subrange(0, p.len() - 6)) + seq!['.'] + p.subrange(p.len() - 6, p.len() as int)
    }
}

/// A float literal truncated towards zero, saturating, as `f as i64`
pub open spec fn float_trunc(t: Seq<char>) -> i64 {
    let (d, point) = float_parts(t);
    let z = first_nonzero(d, 0);
    if z >= d.len() || point <= 0 {
        0
    } else if point - z > 309 {
        0x7fff_ffff_ffff_ffff
    } else {
        let int_digits = if point >= d.len() { d + zeros(point - d.len()) } else { d.subrange(0, point) };
        let v = digits_value(int_digits, 10);
        if v > 0x7fff_ffff_ffff_ffff { 0x7fff_ffff_ffff_ffff } else { v as i64 }
    }
}


fn push_range(out: &mut Vec<char>, t: &Vec<char>, from: usize, to: usize)
    requires
        from <= to <= t.len(),
    ensures
        final(out)@ == old(out)@ + t@.subrange(from as int, to as int),
{
    let mut k = from;
    while k < to
        invariant
            from <= k <= to <= t.len(),
            out@ == old(out)@ + t@.subrange(from as int, k as int),
        decreases to - k,
    {
        out.push(t[k]);
        k = k + 1;
        assert(out@ =~= old(out)@ + t@.subrange(from as int, k as int));
    }
}

fn push_zeros(out: &mut Vec<char>, n: usize)
    ensures
        final(out)@ == old(out)@ + zeros(n as int),
{
    let mut k: usize = 0;
    while k < n
        invariant
            0 <= k <= n,
            out@ == old(out)@ + zeros(k as int),
        decreases n - k,
    {
        out.push('0');
        k = k + 1;
        assert(out@ =~= old(out)@ + zeros(k as int));
    }
}

/// Digits and decimal point position of a float literal
fn float_parts_of(t: &Vec<char>) -> (r: (Vec<char>, i128))
    requires
        float_syntax(t@),
    ensures
        r.0@ == float_parts(t@).0,
        r.1 == float_parts(t@).1,
        r.1 <= t.len() + EXP_CAP,
        r.1 >= -(EXP_CAP as int),
{
    proof {
        lemma_digit_run(t@, 0);
        lemma_digit_run(t@, digit_run(t@, 0) + 1);
    }
    let a = count_digits(t, 0);
    let b = a + 1 + count_digits(t, a + 1);
    let mut digits: Vec<char> = Vec::new();
    push_range(&mut digits, t, 0, a);
    push_range(&mut digits, t, a + 1, b);
    assert(digits@ =~= t@.subrange(0, a as int) + t@.subrange(a + 1, b as int));
    if b >= t.len() {
        return (digits, a as i128);
    }
    let neg = b + 1 < t.len() && t[b + 1] == '-';
    let c = if b + 1 < t.len() && (t[b + 1] == '+' || t[b + 1] == '-') { b + 2 } else { b + 1 };
    proof {
        lemma_digit_run(t@, c as int);
    }
    let ghost e = t@.subrange(c as int, t@.len() as int);
    assert forall|j: int| c <= j < t.len() implies 48 <= (#[trigger] t@[j] as u32) <= 57 by {
        lemma_run_digits(t@, c as int, j);
    }
    let mut w: u64 = 0;
    let mut k = c;
    assert(e.take(0) =~= Seq::<char>::empty());
    while k < t.len()
        invariant
            c <= k <= t.len(),
            e == t@.subrange(c as int, t@.len() as int),
            c + digit_run(t@, c as int) == t.len(),
            forall|j: int| c <= j < t.len() ==> 48 <= (#[trigger] t@[j] as u32) <= 57,
            (w <= EXP_CAP && w == digits_value(e.take(k - c), 10))
                || (w == EXP_CAP + 1 && digits_value(e.take(k - c), 10) > EXP_CAP),
        decreases t.len() - k,
    {
        let d = (t[k] as u32 - 48) as u64;
        assert(e.take(k - c + 1).drop_last() =~= e.take(k - c));
        assert(e.take(k - c + 1).last() == t@[k as int]);
        assert(digit_val(t@[k as int]) == d);
        if w <= EXP_CAP {
            let n = w * 10 + d;
            w = if n > EXP_CAP { EXP_CAP + 1 } else { n };
        }
        k = k + 1;
    }
    assert(e.take(k - c) =~= e);
    let m: i128 = if w > EXP_CAP { EXP_CAP as i128 } else { w as i128 };
    let point = if neg { a as i128 - m } else { a as i128 + m };
    (digits, point)
}

fn first_nonzero_of(d: &Vec<char>) -> (z: usize)
    ensures
        z == first_nonzero(d@, 0),
        z <= d.len(),
        forall|j: int| 0 <= j < z ==> d@[j] == '0',
{
    let mut z: usize = 0;
    while z < d.len() && d[z] == '0'
        invariant
            0 <= z <= d.len(),
            first_nonzero(d@, 0) == first_nonzero(d@, z as int),
            forall|j: int| 0 <= j < z ==> d@[j] == '0',
        decreases d.len() - z,
    {
        z = z + 1;
    }
    z
}

proof fn lemma_increment(s: Seq<char>, k: int)
    requires
        0 <= k <= s.len(),
        forall|j: int| k <= j < s.len() ==> (s[j] as u32) == 57,
        k > 0 ==> (s[k - 1] as u32) != 57,
    ensures
        increment(s) == (if k == 0 { seq!['1'] } else { s.subrange(0, k - 1).push(digit_char(digit_val(s[k - 1]) + 1)) }) + zeros(s.len() - k),
    decreases s.len(),
{
    if s.len() == k {
        if k == 0 {
            assert(zeros(0) =~= Seq::<char>::empty());
            assert(seq!['1'] + zeros(0) =~= seq!['1']);
        } else {
            assert(s.drop_last() =~= s.subrange(0, k - 1));
            assert(s.subrange(0, k - 1).push(digit_char(digit_val(s[k - 1]) + 1)) + zeros(0) =~= s.subrange(0, k - 1).push(digit_char(digit_val(s[k - 1]) + 1)));
        }
    } else {
        let p = s.drop_last();
        lemma_increment(p, k);
        let head = if k == 0 { seq!['1'] } else { p.subrange(0, k - 1).push(digit_char(digit_val(p[k - 1]) + 1)) };
        assert(increment(s) == increment(p).push('0'));
        assert(zeros(p.len() - k).push('0') =~= zeros(s.len() - k));
        if k > 0 {
            assert(p.subrange(0, k - 1) =~= s.subrange(0, k - 1));
        }
        assert((head + zeros(p.len() - k)).push('0') =~= head + zeros(s.len() - k));
    }
}

fn increment_digits(s: &Vec<char>) -> (r: Vec<char>)
    requires
        forall|j: int| 0 <= j < s.len() ==> 48 <= (#[trigger] s@[j] as u32) <= 57,
    ensures
        r@ == increment(s@),
{
    let mut k = s.len();
    while k > 0 && (s[k - 1] as u32) == 57
        invariant
            0 <= k <= s.len(),
            forall|j: int| k <= j < s.len() ==> (s@[j] as u32) == 57,
        decreases k,
    {
        k = k - 1;
    }
    proof {
        lemma_increment(s@, k as int);
    }
    let mut out: Vec<char> = Vec::new();
    if k == 0 {
        out.push('1');
    } else {
        push_range(&mut out, s, 0, k - 1);
        let c = s[k - 1];
        assert(48 <= (s@[k - 1] as u32) <= 57);
        assert((s@[k - 1] as u32) != 57);
        let dv = (c as u32 - 48) as u64;
        out.push(digit(dv + 1));
    }
    push_zeros(&mut out, s.len() - k);
    out
}

/// Renders a float literal with six decimals
pub fn float_chars(t: &Vec<char>) -> (r: Vec<char>)
    requires
        float_syntax(t@),
    ensures
        r@ == float_text(t@),
{
    let (d, point) = float_parts_of(t);
    let z = first_nonzero_of(&d);
    if z < d.len() && point - (z as i128) > 309 {
        let mut out = Vec::new();
        out.push('i');
        out.push('n');
        out.push('f');
        assert(out@ =~= seq!['i', 'n', 'f']);
        return out;
    }
    if z >= d.len() {
        let mut out = Vec::new();
        out.push('0');
        out.push('.');
        push_zeros(&mut out, 6);
        assert(out@ =~= seq!['0', '.', '0', '0', '0', '0', '0', '0']);
        return out;
    }
    assert(forall|j: int| 0 <= j < d.len() ==> 48 <= (#[trigger] d@[j] as u32) <= 57) by {
        lemma_digit_run(t@, 0);
        lemma_digit_run(t@, digit_run(t@, 0) + 1);
        assert forall|j: int| 0 <= j < d.len() implies 48 <= (#[trigger] d@[j] as u32) <= 57 by {
            let a = digit_run(t@, 0);
            if j < a {
                assert(d@[j] == t@[j]);
                lemma_run_digits(t@, 0, j);
            } else {
                assert(d@[j] == t@[j + 1]);
                lemma_run_digits(t@, a + 1, j + 1);
            }
        }
    }
    // point - z <= 309 and z < d.len(), so q is small
    let q: i128 = point + 6;
    let mut kept: Vec<char> = Vec::new();
    if q <= 0 {
    } else if q >= d.len() as i128 {
        push_range(&mut kept, &d, 0, d.len());
        push_zeros(&mut kept, (q - d.len() as i128) as usize);
        assert(d@.subrange(0, d@.len() as int) =~= d@);
    } else {
        push_range(&mut kept, &d, 0, q as usize);
    }
    assert(forall|j: int| 0 <= j < kept.len() ==> 48 <= (#[trigger] kept@[j] as u32) <= 57);
    let up = 0 <= q && q < d.len() as i128 && (d[q as usize] as u32) >= 53;
    let n = if up { increment_digits(&kept) } else { kept };
    let mut p: Vec<char> = Vec::new();
    if n.len() < 7 {
        push_zeros(&mut p, 7 - n.len());
    } else {
        assert(zeros(7 - n@.len()) =~= Seq::<char>::empty());
    }
    push_range(&mut p, &n, 0, n.len());
    assert(n@.subrange(0, n@.len() as int) =~= n@);
    let cut = p.len() - 6;
    let mut head: Vec<char> = Vec::new();
    push_range(&mut head, &p, 0, cut);
    let hz = first_nonzero_of(&head);
    let mut out: Vec<char> = Vec::new();
    if hz >= head.len() {
        out.push('0');
    } else {
        push_range(&mut out, &head, hz, head.len());
        assert(head@.subrange(hz as int, head@.len() as int) =~= head@.skip(hz as int));
    }
    out.push('.');
    push_range(&mut out, &p, cut, p.len());
    assert(out@ =~= strip_zeros(p@.subrange(0, p@.len() - 6)) + seq!['.'] + p@.subrange(p@.len() - 6, p@.len() as int));
    out
}

proof fn lemma_run_digits(t: Seq<char>, i: int, j: int)
    requires
        0 <= i <= j < i + digit_run(t, i),
    ensures
        48 <= (t[j] as u32) <= 57,
    decreases j - i,
{
    if j > i {
        lemma_run_digits(t, i + 1, j);
    }
}


/// Truncates a float literal towards zero, saturating
pub fn float_trunc_value(t: &Vec<char>) -> (r: i64)
    requires
        float_syntax(t@),
    ensures
        r == float_trunc(t@),
{
    let (d, point) = float_parts_of(t);
    let z = first_nonzero_of(&d);
    if z >= d.len() || point <= 0 {
        return 0;
    }
    if point - (z as i128) > 309 {
        return 0x7fff_ffff_ffff_ffff;
    }
    proof {
        lemma_digit_run(t@, 0);
        lemma_digit_run(t@, digit_run(t@, 0) + 1);
        assert forall|j: int| 0 <= j < d.len() implies 48 <= (#[trigger] d@[j] as u32) <= 57 by {
            let a = digit_run(t@, 0);
            if j < a {
                assert(d@[j] == t@[j]);
                lemma_run_digits(t@, 0, j);
            } else {
                assert(d@[j] == t@[j + 1]);
                lemma_run_digits(t@, a + 1, j + 1);
            }
        }
    }
    let ghost e = if point >= d@.len() { d@ + zeros(point - d@.len()) } else { d@.subrange(0, point as int) };
    assert(e.len() == point);
    assert(forall|j: int| 0 <= j < e.len() ==> #[trigger] e[j] == (if j < d@.len() { d@[j] } else { '0' }));
    let max: u64 = 0x7fff_ffff_ffff_ffff;
    let mut w: u64 = 0;
    let mut k: i128 = 0;
    assert(e.take(0) =~= Seq::<char>::empty());
    while k < point
        invariant
            0 <= k <= point,
            e.len() == point,
            forall|j: int| 0 <= j < e.len() ==> #[trigger] e[j] == (if j < d@.len() { d@[j] } else { '0' }),
            max == 0x7fff_ffff_ffff_ffff,
            forall|j: int| 0 <= j < d.len() ==> 48 <= (#[trigger] d@[j] as u32) <= 57,
            (w <= max && w == digits_value(e.take(k as int), 10))
                || (w == max + 1 && digits_value(e.take(k as int), 10) > max),
        decreases point - k,
    {
        let c = if k < d.len() as i128 { d[k as usize] } else { '0' };
        assert(c == e[k as int]);
        let dv = (c as u32 - 48) as u64;
        assert(e.take(k + 1).drop_last() =~= e.take(k as int));
        assert(e.take(k + 1).last() == e[k as int]);
        assert(digit_val(c) == dv);
        if w <= max {
            if w > (max - dv) / 10 {
                assert(w * 10 + dv > max) by (nonlinear_arith)
                    requires w > (max - dv) / 10, dv <= 9, max == 0x7fff_ffff_ffff_ffff;
                w = max + 1;
            } else {
                assert(w * 10 + dv <= max) by (nonlinear_arith)
                    requires w <= (max - dv) / 10, dv <= 9, max == 0x7fff_ffff_ffff_ffff;
                w = w * 10 + dv;
            }
        }
        k = k + 1;
    }
    assert(e.take(k as int) =~= e);
    assert(digits_value(e, 10) > max ==> float_trunc(t@) == max as i64);
    if w > max { max as i64 } else { w as i64 }
}

} // verus!
