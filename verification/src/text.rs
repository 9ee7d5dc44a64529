//! Byte and character level helpers shared by the scanners, and the few
//! standard library conversions they rest on.

use vstd::prelude::*;
use vstd::utf8::*;

verus! {

/// What `String::from_utf8_lossy` makes of a byte sequence.
pub uninterp spec fn utf8_lossy(bytes: Seq<u8>) -> Seq<char>;

/// Whether a character has the Unicode `White_Space` property: tab through
/// carriage return, space, next line, no-break space, ogham space mark, the
/// en quad through hair space, the line and paragraph separators, the narrow
/// no-break space, the medium mathematical space and the ideographic space.
pub open spec fn unicode_white_space(c: char) -> bool {
    let u = c as u32;
    ||| 0x9 <= u <= 0xD
    ||| u == 0x20
    ||| u == 0x85
    ||| u == 0xA0
    ||| u == 0x1680
    ||| 0x2000 <= u <= 0x200A
    ||| u == 0x2028
    ||| u == 0x2029
    ||| u == 0x202F
    ||| u == 0x205F
    ||| u == 0x3000
}

/// Whether a character has the Unicode `Alphabetic` property.
pub uninterp spec fn unicode_alphabetic(c: char) -> bool;

/// Whether a character is `Alphabetic` or has a numeric general category.
pub uninterp spec fn unicode_alphanumeric(c: char) -> bool;

/// Letters: the ASCII ones, and beyond ASCII those with the `Alphabetic`
/// property
pub open spec fn alphabetic(c: char) -> bool {
    if (c as u32) < 128 { is_alpha_char(c) } else { unicode_alphabetic(c) }
}

/// Letters and digits: the ASCII ones, and beyond ASCII the alphanumeric
/// characters
pub open spec fn alphanumeric(c: char) -> bool {
    if (c as u32) < 128 { is_alpha_char(c) || is_digit_char(c) } else { unicode_alphanumeric(c) }
}

/// Wraps `String::from_utf8_lossy(..).into_owned()`: valid UTF-8 is decoded
/// as is, and bytes that are not become replacement characters, so no byte
/// is dropped without a trace; what invalid sequences turn into is left to
/// the name `utf8_lossy`.
#[verifier::external_body]
pub(crate) fn string_from_bytes(bytes: &[u8]) -> (res: String)
    ensures
        res@ == utf8_lossy(bytes@),
        valid_utf8(bytes@) ==> res@ == decode_utf8(bytes@),
        bytes@.len() > 0 ==> res@.len() > 0,
{
    String::from_utf8_lossy(bytes).into_owned()
}

/// The characters of a string, in order
pub(crate) fn chars_of(s: &str) -> (res: Vec<char>)
    ensures
        res@ == s@,
{
    broadcast use vstd::string::axiom_spec_iter;
    let mut res: Vec<char> = Vec::new();
    for c in it: s.chars()
        invariant
            it.seq() == s@,
            res@ == it.seq().take(it.index() as int),
    {
        res.push(c);
    }
    res
}

/// Wraps `String::from_iter` over characters: the string made of `cs`.
#[verifier::external_body]
pub(crate) fn string_from_chars(cs: &[char]) -> (res: String)
    ensures
        res@ == cs@,
{
    cs.iter().collect()
}

/// Whether `c` is white space, as `char::is_whitespace` decides it
pub(crate) fn char_is_whitespace(c: char) -> (r: bool)
    ensures
        r == unicode_white_space(c),
        (c as u32) < 128 ==> (r <==> is_space_char(c)),
{
    let u = c as u32;
    (0x9 <= u && u <= 0xD) || u == 0x20 || u == 0x85 || u == 0xA0 || u == 0x1680 || (0x2000 <= u && u <= 0x200A)
        || u == 0x2028 || u == 0x2029 || u == 0x202F || u == 0x205F || u == 0x3000
}

/// Wraps `char::is_alphabetic`.
#[verifier::external_body]
pub(crate) fn char_is_alphabetic(c: char) -> (r: bool)
    ensures
        r == unicode_alphabetic(c),
        (c as u32) < 128 ==> (r <==> is_alpha_char(c)),
        r == alphabetic(c),
{
    c.is_alphabetic()
}

/// Wraps `char::is_alphanumeric`.
#[verifier::external_body]
pub(crate) fn char_is_alphanumeric(c: char) -> (r: bool)
    ensures
        r == unicode_alphanumeric(c),
        (c as u32) < 128 ==> (r <==> (is_alpha_char(c) || is_digit_char(c))),
        r == alphanumeric(c),
{
    c.is_alphanumeric()
}

/// ASCII letters
pub open spec fn is_alpha(b: u8) -> bool {
    (65 <= b && b <= 90) || (97 <= b && b <= 122)
}

/// ASCII digits
pub open spec fn is_digit(b: u8) -> bool {
    48 <= b && b <= 57
}

/// ASCII whitespace as `u8::is_ascii_whitespace` defines it
pub open spec fn is_space(b: u8) -> bool {
    b == 32 || b == 9 || b == 10 || b == 12 || b == 13
}

pub open spec fn is_alpha_char(c: char) -> bool {
    (65 <= (c as u32) && (c as u32) <= 90) || (97 <= (c as u32) && (c as u32) <= 122)
}

pub open spec fn is_digit_char(c: char) -> bool {
    48 <= (c as u32) && (c as u32) <= 57
}

/// The ASCII characters with the `White_Space` property (`\t \n \v \f \r` and space)
pub open spec fn is_space_char(c: char) -> bool {
    (c as u32) == 32 || (9 <= (c as u32) && (c as u32) <= 13)
}

pub fn ascii_alpha(b: u8) -> (r: bool)
    ensures
        r == is_alpha(b),
{
    (b >= 65 && b <= 90) || (b >= 97 && b <= 122)
}

pub fn ascii_digit(b: u8) -> (r: bool)
    ensures
        r == is_digit(b),
{
    b >= 48 && b <= 57
}

pub fn ascii_space(b: u8) -> (r: bool)
    ensures
        r == is_space(b),
{
    b == 32 || b == 9 || b == 10 || b == 12 || b == 13
}

/// Number of leading characters with the `White_Space` property
pub open spec fn leading_ws(s: Seq<char>, i: int) -> int
    decreases s.len() - i,
{
    if i < 0 || i >= s.len() || !unicode_white_space(s[i]) {
        if i < 0 { 0 } else { i }
    } else {
        leading_ws(s, i + 1)
    }
}

/// Start of the trailing run of `White_Space` characters ending at `j`
pub open spec fn trailing_ws(s: Seq<char>, j: int) -> int
    decreases j,
{
    if j <= 0 || j > s.len() || !unicode_white_space(s[j - 1]) {
        if j <= 0 { 0 } else if j > s.len() { s.len() as int } else { j }
    } else {
        trailing_ws(s, j - 1)
    }
}

/// `str::trim_start`
pub open spec fn trim_start(s: Seq<char>) -> Seq<char> {
    s.skip(leading_ws(s, 0))
}

/// `str::trim`
pub open spec fn trim(s: Seq<char>) -> Seq<char> {
    let a = leading_ws(s, 0);
    let b = trailing_ws(s, s.len() as int);
    if a >= b { Seq::empty() } else { s.subrange(a, b) }
}

proof fn lemma_leading_ws_bounds(s: Seq<char>, i: int)
    requires
        0 <= i <= s.len(),
    ensures
        i <= leading_ws(s, i) <= s.len(),
        leading_ws(s, i) < s.len() ==> !unicode_white_space(s[leading_ws(s, i)]),
    decreases s.len() - i,
{
    if i < s.len() && unicode_white_space(s[i]) {
        lemma_leading_ws_bounds(s, i + 1);
    }
}

proof fn lemma_trailing_ws_bounds(s: Seq<char>, j: int)
    requires
        0 <= j <= s.len(),
    ensures
        0 <= trailing_ws(s, j) <= j,
    decreases j,
{
    if j > 0 && unicode_white_space(s[j - 1]) {
        lemma_trailing_ws_bounds(s, j - 1);
    }
}

/// Removes leading white space, like `str::trim_start`.
pub fn trim_start_chars(s: &[char]) -> (res: Vec<char>)
    ensures
        res@ == trim_start(s@),
{
    let mut i: usize = 0;
    while i < s.len() && char_is_whitespace(s[i])
        invariant
            0 <= i <= s.len(),
            leading_ws(s@, 0) == leading_ws(s@, i as int),
        decreases s.len() - i,
    {
        i = i + 1;
    }
    proof {
        lemma_leading_ws_bounds(s@, i as int);
    }
    let mut out: Vec<char> = Vec::new();
    let mut k: usize = i;
    while k < s.len()
        invariant
            i <= k <= s.len(),
            i == leading_ws(s@, 0),
            out@ == s@.subrange(i as int, k as int),
        decreases s.len() - k,
    {
        out.push(s[k]);
        k = k + 1;
    }
    out
}

/// Removes leading and trailing white space, like `str::trim`.
pub fn trim_chars(s: &[char]) -> (res: Vec<char>)
    ensures
        res@ == trim(s@),
{
    let mut a: usize = 0;
    while a < s.len() && char_is_whitespace(s[a])
        invariant
            0 <= a <= s.len(),
            leading_ws(s@, 0) == leading_ws(s@, a as int),
        decreases s.len() - a,
    {
        a = a + 1;
    }
    proof {
        lemma_leading_ws_bounds(s@, a as int);
    }
    let mut b: usize = s.len();
    while b > 0 && char_is_whitespace(s[b - 1])
        invariant
            0 <= b <= s.len(),
            trailing_ws(s@, s.len() as int) == trailing_ws(s@, b as int),
        decreases b,
    {
        b = b - 1;
    }
    let mut out: Vec<char> = Vec::new();
    if a >= b {
        return out;
    }
    let mut k: usize = a;
    while k < b
        invariant
            a <= k <= b <= s.len(),
            out@ == s@.subrange(a as int, k as int),
        decreases b - k,
    {
        out.push(s[k]);
        k = k + 1;
    }
    out
}

/// Whether `s` holds `w` at `i`
pub open spec fn has_at(s: Seq<char>, i: int, w: Seq<char>) -> bool {
    0 <= i && i + w.len() <= s.len() && s.subrange(i, i + w.len()) == w
}

pub fn chars_at(s: &[char], i: usize, w: &[char]) -> (r: bool)
    ensures
        r == has_at(s@, i as int, w@),
{
    if i > s.len() || w.len() > s.len() - i {
        return false;
    }
    let mut k: usize = 0;
    while k < w.len()
        invariant
            i + w.len() <= s.len(),
            0 <= k <= w.len(),
            forall|j: int| 0 <= j < k ==> s@[i + j] == w@[j],
        decreases w.len() - k,
    {
        if s[i + k] != w[k] {
            assert(s@.subrange(i as int, i + w.len())[k as int] != w@[k as int]);
            return false;
        }
        k = k + 1;
    }
    assert(s@.subrange(i as int, i + w.len()) =~= w@);
    true
}

/// Whether the whole of `s` is `w`
pub fn chars_eq(s: &[char], w: &[char]) -> (r: bool)
    ensures
        r == (s@ == w@),
{
    if s.len() != w.len() {
        return false;
    }
    let r = chars_at(s, 0, w);
    proof {
        if r {
            assert(s@.subrange(0, s@.len() as int) =~= s@);
        } else {
            assert(s@.subrange(0, s@.len() as int) =~= s@);
        }
    }
    r
}

} // verus!
