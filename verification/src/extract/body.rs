//! Whether a function body returns a value.

use vstd::prelude::*;
use crate::text::{has_at, chars_at, trim_start, trim_start_chars, is_alpha_char, is_digit_char};

verus! {

pub open spec fn word_char(c: char) -> bool {
    is_alpha_char(c) || is_digit_char(c) || c == '_'
}

pub open spec fn return_word() -> Seq<char> {
    seq!['r', 'e', 't', 'u', 'r', 'n']
}

/// `return` stands at `p` as a word of its own and is followed by
/// something other than `;` or `}`
pub open spec fn returns_at(b: Seq<char>, p: int) -> bool {
    &&& has_at(b, p, return_word())
    &&& (p == 0 || !word_char(b[p - 1]))
    &&& (p + 6 >= b.len() || !word_char(b[p + 6]))
    &&& trim_start(b.subrange(p + 6, b.len() as int)).len() > 0
    &&& trim_start(b.subrange(p + 6, b.len() as int))[0] != ';'
    &&& trim_start(b.subrange(p + 6, b.len() as int))[0] != '}'
}

fn is_word_char(c: char) -> (r: bool)
    ensures
        r == word_char(c),
{
    let u = c as u32;
    (65 <= u && u <= 90) || (97 <= u && u <= 122) || (48 <= u && u <= 57) || c == '_'
}

/// Whether a function body contains `return <value>;`
pub fn returns_value(body: &Vec<char>) -> (r: bool)
    ensures
        r == exists|p: int| 0 <= p < body@.len() && #[trigger] returns_at(body@, p),
{
    let word = ['r', 'e', 't', 'u', 'r', 'n'];
    assert(word@ == return_word());
    let mut p: usize = 0;
    while p < body.len()
        invariant
            p <= body.len(),
            word@ == return_word(),
            forall|q: int| 0 <= q < p ==> !#[trigger] returns_at(body@, q),
        decreases body.len() - p,
    {
        if chars_at(body.as_slice(), p, &word) {
            let left = p == 0 || !is_word_char(body[p - 1]);
            let end = p + 6;
            let right = end >= body.len() || !is_word_char(body[end]);
            if left && right {
                let rest = trim_start_chars(&body.as_slice()[end..body.len()]);
                if rest.len() > 0 && rest[0] != ';' && rest[0] != '}' {
                    assert(returns_at(body@, p as int));
                    return true;
                }
            }
        }
        p = p + 1;
    }
    false
}

} // verus!
