//! Tokens of constant expressions.

use vstd::prelude::*;
use crate::text::{chars_of, char_is_whitespace, char_is_alphabetic, char_is_alphanumeric,
    unicode_white_space, alphabetic, alphanumeric, has_at, chars_at};
use crate::preprocess::{close_at_or_after, quoted_end};
use super::number::{int_literal, int_literal_value, float_syntax, is_float_literal, char_literal, char_value};

verus! {

/// Punctuators, longest first; a `Punct` token holds an index into it
pub open spec fn punct_table() -> Seq<Seq<char>> {
    seq![
        seq!['>', '>', '>', '='],
        seq!['<', '<', '='],
        seq!['>', '>', '='],
        seq!['>', '>', '>'],
        seq!['.', '.', '.'],
        seq![':', ':'],
        seq!['<', '<'],
        seq!['>', '>'],
        seq!['<', '='],
        seq!['>', '='],
        seq!['=', '='],
        seq!['!', '='],
        seq!['&', '&'],
        seq!['|', '|'],
        seq!['+', '+'],
        seq!['-', '-'],
        seq!['+', '='],
        seq!['-', '='],
        seq!['*', '='],
        seq!['/', '='],
        seq!['%', '='],
        seq!['&', '='],
        seq!['|', '='],
        seq!['^', '='],
        seq!['~', '='],
        seq!['('],
        seq![')'],
        seq!['['],
        seq![']'],
        seq!['{'],
        seq!['}'],
        seq!['<'],
        seq!['>'],
        seq!['+'],
        seq!['-'],
        seq!['*'],
        seq!['/'],
        seq!['%'],
        seq!['&'],
        seq!['|'],
        seq!['^'],
        seq!['!'],
        seq!['~'],
        seq!['?'],
        seq![':'],
        seq![','],
        seq!['.'],
        seq!['='],
        seq![';'],
    ]
}

pub const P_LPAREN: u8 = 25;
pub const P_RPAREN: u8 = 26;
pub const P_LBRACKET: u8 = 27;
pub const P_RBRACKET: u8 = 28;
pub const P_LBRACE: u8 = 29;
pub const P_RBRACE: u8 = 30;
pub const P_LT: u8 = 31;
pub const P_GT: u8 = 32;
pub const P_QUESTION: u8 = 43;
pub const P_COLON: u8 = 44;
pub const P_COMMA: u8 = 45;
pub const P_DOT: u8 = 46;
pub const P_SCOPE: u8 = 5;
pub const P_ELLIPSIS: u8 = 4;
pub const P_INC: u8 = 14;
pub const P_DEC: u8 = 15;
pub const P_NOT: u8 = 41;
pub const P_TILDE: u8 = 42;
pub const P_MINUS: u8 = 34;
pub const P_PLUS: u8 = 33;
pub const P_AMP: u8 = 38;
pub const P_OROR: u8 = 13;
pub const P_ANDAND: u8 = 12;
pub const P_OR: u8 = 39;
pub const P_XOR: u8 = 40;
pub const P_EQEQ: u8 = 10;
pub const P_NE: u8 = 11;
pub const P_LE: u8 = 8;
pub const P_GE: u8 = 9;
pub const P_SHL: u8 = 6;
pub const P_SHR: u8 = 7;
pub const P_USHR: u8 = 3;
pub const P_STAR: u8 = 35;
pub const P_SLASH: u8 = 36;
pub const P_PERCENT: u8 = 37;
pub const P_ASSIGN: u8 = 47;
pub const P_ADD_ASSIGN: u8 = 16;
pub const P_SUB_ASSIGN: u8 = 17;
pub const P_MUL_ASSIGN: u8 = 18;
pub const P_DIV_ASSIGN: u8 = 19;
pub const P_MOD_ASSIGN: u8 = 20;
pub const P_AND_ASSIGN: u8 = 21;
pub const P_OR_ASSIGN: u8 = 22;
pub const P_XOR_ASSIGN: u8 = 23;
pub const P_SHL_ASSIGN: u8 = 1;
pub const P_SHR_ASSIGN: u8 = 2;
pub const P_USHR_ASSIGN: u8 = 0;
pub const P_TILDE_ASSIGN: u8 = 24;
pub const P_SEMI: u8 = 48;

/// A token as the specifications see it
pub enum SpecToken {
    Int(i64),
    /// Float literal text with `_` removed
    Float(Seq<char>),
    /// String literal, raw text including quotes
    Str(Seq<char>),
    /// Character literal, raw text including quotes, and its value
    Char(Seq<char>, i64),
    Ident(Seq<char>),
    Punct(u8),
}

#[derive(Debug)]
pub enum Token {
    Int(i64),
    /// Float literal text with `_` removed
    Float(Vec<char>),
    /// String literal, raw source text including quotes.
    Str(Vec<char>),
    /// Character literal, raw source text including quotes.
    Char(Vec<char>, i64),
    Ident(Vec<char>),
    /// Index into the punctuator table
    Punct(u8),
}

impl View for Token {
    type V = SpecToken;

    open spec fn view(&self) -> SpecToken {
        match self {
            Token::Int(v) => SpecToken::Int(*v),
            Token::Float(t) => SpecToken::Float(t@),
            Token::Str(t) => SpecToken::Str(t@),
            Token::Char(t, v) => SpecToken::Char(t@, *v),
            Token::Ident(t) => SpecToken::Ident(t@),
            Token::Punct(p) => SpecToken::Punct(*p),
        }
    }
}

pub open spec fn tokens_view(ts: Seq<Token>) -> Seq<SpecToken> {
    ts.map_values(|t: Token| t@)
}

/// The first punctuator of the table at `i`
pub open spec fn punct_at(s: Seq<char>, i: int) -> Option<u8> {
    punct_from(s, i, 0)
}

pub open spec fn punct_from(s: Seq<char>, i: int, k: int) -> Option<u8>
    decreases punct_table().len() - k,
{
    if k < 0 || k >= punct_table().len() {
        None
    } else if has_at(s, i, punct_table()[k]) {
        Some(k as u8)
    } else {
        punct_from(s, i, k + 1)
    }
}

/// End of a number token starting at `start`, scanned up to `end`, and
/// whether it holds a point
pub open spec fn number_scan(s: Seq<char>, start: int, end: int, hex: bool, is_float: bool) -> (int, bool)
    decreases s.len() - end,
{
    if end < 0 || end >= s.len() {
        (end, is_float)
    } else {
        if !number_continues(s, end, hex, is_float) {
            (end, is_float)
        } else {
            number_scan(s, start, end + 1, hex, is_float || s[end] == '.')
        }
    }
}

/// Characters of `t` other than `_`
pub open spec fn without_underscores(t: Seq<char>) -> Seq<char> {
    t.filter(|c: char| c != '_')
}

/// The token that a number's text makes, `None` when it isn't a number
pub open spec fn number_token(text: Seq<char>, is_float: bool) -> Option<SpecToken> {
    let clean = without_underscores(text);
    if is_float {
        if float_syntax(clean) { Some(SpecToken::Float(clean)) } else { None }
    } else {
        match int_literal(clean) {
            Some(v) => Some(SpecToken::Int(v)),
            None => None,
        }
    }
}

/// End of an identifier whose first character is at `i - 1`
pub open spec fn ident_end(s: Seq<char>, i: int) -> int
    decreases s.len() - i,
{
    if i < 0 || i >= s.len() || !(alphanumeric(s[i]) || s[i] == '_') {
        i
    } else {
        ident_end(s, i + 1)
    }
}

pub open spec fn prepend(t: SpecToken, rest: Option<Seq<SpecToken>>) -> Option<Seq<SpecToken>> {
    match rest {
        Some(ts) => Some(seq![t] + ts),
        None => None,
    }
}

/// One step of the lexer
pub enum LexStep {
    /// Nothing to emit, continue at the index
    Skip(int),
    /// End of input (or a line comment)
    Stop,
    /// A character that can't appear in an expression, or a bad number
    Fail,
    /// A token, continue at the index
    Emit(SpecToken, int),
}

/// What the lexer does at `i`
pub open spec fn lex_step(s: Seq<char>, i: int) -> LexStep {
    if i < 0 || i >= s.len() {
        LexStep::Stop
    } else if unicode_white_space(s[i]) || s[i] == '\\' {
        LexStep::Skip(i + 1)
    } else if s[i] == '/' && i + 1 < s.len() && s[i + 1] == '/' {
        LexStep::Stop
    } else if s[i] == '/' && i + 1 < s.len() && s[i + 1] == '*' {
        match close_at_or_after(s, i + 2) {
            Some(j) => LexStep::Skip(j + 2),
            None => LexStep::Stop,
        }
    } else if 48 <= (s[i] as u32) && (s[i] as u32) <= 57 {
        let hex = has_at(s, i, seq!['0', 'x']) || has_at(s, i, seq!['0', 'X']);
        let (end, is_float) = number_scan(s, i, i, hex, false);
        match number_token(s.subrange(i, end), is_float) {
            Some(t) => LexStep::Emit(t, end),
            None => LexStep::Fail,
        }
    } else if alphabetic(s[i]) || s[i] == '_' || s[i] == '@' {
        let end = ident_end(s, i + 1);
        LexStep::Emit(SpecToken::Ident(s.subrange(i, end)), end)
    } else if s[i] == '"' || s[i] == '\'' {
        let end = quoted_end(s, i + 1, s[i]);
        if s[i] == '"' {
            LexStep::Emit(SpecToken::Str(s.subrange(i, end)), end)
        } else {
            LexStep::Emit(SpecToken::Char(s.subrange(i, end), char_literal(s.subrange(i, end))), end)
        }
    } else {
        match punct_at(s, i) {
            Some(k) => LexStep::Emit(SpecToken::Punct(k), i + punct_table()[k as int].len()),
            None => LexStep::Fail,
        }
    }
}

/// The tokens of `s` from `i` on; `None` when a character can't appear in
/// an expression or a number is malformed. A `//` comment ends the input.
pub open spec fn lex(s: Seq<char>, i: int) -> Option<Seq<SpecToken>>
    decreases s.len() + 2 - i,
{
    match lex_step(s, i) {
        LexStep::Stop => Some(Seq::empty()),
        LexStep::Fail => None,
        LexStep::Skip(j) => if j <= i || j > s.len() { None } else { lex(s, j) },
        LexStep::Emit(t, j) => if j <= i || j > s.len() { None } else { prepend(t, lex(s, j)) },
    }
}

fn punct_chars_table() -> (t: [&'static [char]; 49])
    ensures
        forall|k: int| 0 <= k < 49 ==> (#[trigger] t@[k])@ == punct_table()[k],
{
    let t: [&'static [char]; 49] = [
        &['>', '>', '>', '='],
        &['<', '<', '='],
        &['>', '>', '='],
        &['>', '>', '>'],
        &['.', '.', '.'],
        &[':', ':'],
        &['<', '<'],
        &['>', '>'],
        &['<', '='],
        &['>', '='],
        &['=', '='],
        &['!', '='],
        &['&', '&'],
        &['|', '|'],
        &['+', '+'],
        &['-', '-'],
        &['+', '='],
        &['-', '='],
        &['*', '='],
        &['/', '='],
        &['%', '='],
        &['&', '='],
        &['|', '='],
        &['^', '='],
        &['~', '='],
        &['('],
        &[')'],
        &['['],
        &[']'],
        &['{'],
        &['}'],
        &['<'],
        &['>'],
        &['+'],
        &['-'],
        &['*'],
        &['/'],
        &['%'],
        &['&'],
        &['|'],
        &['^'],
        &['!'],
        &['~'],
        &['?'],
        &[':'],
        &[','],
        &['.'],
        &['='],
        &[';'],
    ];
    assert(forall|k: int| 0 <= k < 49 ==> (#[trigger] t@[k])@ == punct_table()[k]);
    t
}

/// The text of punctuator `p`
pub fn punct_text(p: u8) -> (r: &'static [char])
    requires
        p < 49,
    ensures
        r@ == punct_table()[p as int],
{
    let t = punct_chars_table();
    t[p as usize]
}

fn match_punct(s: &Vec<char>, i: usize) -> (res: Option<u8>)
    ensures
        res == punct_at(s@, i as int),
        res matches Some(k) ==> k < 49 && punct_table()[k as int].len() > 0
            && i + punct_table()[k as int].len() <= s.len(),
{
    let t = punct_chars_table();
    assert(punct_table().len() == 49);
    let mut k: usize = 0;
    while k < 49
        invariant
            0 <= k <= 49,
            forall|j: int| 0 <= j < 49 ==> (#[trigger] t@[j])@ == punct_table()[j],
            punct_at(s@, i as int) == punct_from(s@, i as int, k as int),
        decreases 49 - k,
    {
        if chars_at(s.as_slice(), i, t[k]) {
            assert(t@[k as int]@.len() > 0);
            return Some(k as u8);
        }
        k = k + 1;
    }
    None
}


/// `prefix` followed by the tokens `rest`, when there are any
pub open spec fn join_tokens(prefix: Seq<SpecToken>, rest: Option<Seq<SpecToken>>) -> Option<Seq<SpecToken>> {
    match rest {
        Some(ts) => Some(prefix + ts),
        None => None,
    }
}

proof fn lemma_number_scan(s: Seq<char>, start: int, end: int, hex: bool, is_float: bool)
    requires
        0 <= end <= s.len(),
    ensures
        end <= number_scan(s, start, end, hex, is_float).0 <= s.len(),
    decreases s.len() - end,
{
    if end < s.len() {
        if number_continues(s, end, hex, is_float) {
            lemma_number_scan(s, start, end + 1, hex, is_float || s[end] == '.');
        }
    }
}

/// Whether the number scan continues at `end`
pub open spec fn number_continues(s: Seq<char>, end: int, hex: bool, is_float: bool) -> bool {
    let b = s[end];
    let u = b as u32;
    let alnum = (48 <= u && u <= 57) || (65 <= u && u <= 90) || (97 <= u && u <= 122);
    alnum || b == '_' || (b == '.' && !hex && !is_float && !has_at(s, end, seq!['.', '.', '.']))
        || ((b == '-' || b == '+') && is_float && end > 0 && (s[end - 1] == 'e' || s[end - 1] == 'E'))
}

fn number_continues_at(cs: &Vec<char>, end: usize, hex: bool, is_float: bool) -> (r: bool)
    requires
        end < cs.len(),
    ensures
        r == number_continues(cs@, end as int, hex, is_float),
{
    let b = cs[end];
    let u = b as u32;
    let alnum = (48 <= u && u <= 57) || (65 <= u && u <= 90) || (97 <= u && u <= 122);
    let dots = chars_at(cs.as_slice(), end, &['.', '.', '.']);
    assert((&['.', '.', '.'])@ =~= seq!['.', '.', '.']);
    alnum || b == '_' || (b == '.' && !hex && !is_float && !dots)
        || ((b == '-' || b == '+') && is_float && end > 0 && (cs[end - 1] == 'e' || cs[end - 1] == 'E'))
}

fn scan_number(cs: &Vec<char>, i: usize) -> (res: (usize, bool))
    requires
        i < cs.len(),
    ensures
        ({
            let hex = has_at(cs@, i as int, seq!['0', 'x']) || has_at(cs@, i as int, seq!['0', 'X']);
            let r = number_scan(cs@, i as int, i as int, hex, false);
            res.0 == r.0 && res.1 == r.1
        }),
        i <= res.0 <= cs.len(),
{
    let hex = chars_at(cs.as_slice(), i, &['0', 'x']) || chars_at(cs.as_slice(), i, &['0', 'X']);
    assert((&['0', 'x'])@ =~= seq!['0', 'x']);
    assert((&['0', 'X'])@ =~= seq!['0', 'X']);
    let mut end = i;
    let mut is_float = false;
    while end < cs.len() && number_continues_at(cs, end, hex, is_float)
        invariant
            i <= end <= cs.len(),
            hex == (has_at(cs@, i as int, seq!['0', 'x']) || has_at(cs@, i as int, seq!['0', 'X'])),
            number_scan(cs@, i as int, i as int, hex, false) == number_scan(cs@, i as int, end as int, hex, is_float),
        decreases cs.len() - end,
    {
        if cs[end] == '.' {
            is_float = true;
        }
        end = end + 1;
    }
    (end, is_float)
}

fn remove_underscores(cs: &Vec<char>, i: usize, end: usize) -> (res: Vec<char>)
    requires
        i <= end <= cs.len(),
    ensures
        res@ == without_underscores(cs@.subrange(i as int, end as int)),
{
    let ghost text = cs@.subrange(i as int, end as int);
    let mut out: Vec<char> = Vec::new();
    let mut k = i;
    assert(text.take(0) =~= Seq::<char>::empty());
    proof {
        reveal_with_fuel(Seq::<_>::filter, 1);
    }
    while k < end
        invariant
            i <= k <= end <= cs.len(),
            text == cs@.subrange(i as int, end as int),
            out@ == text.take(k - i).filter(|c: char| c != '_'),
        decreases end - k,
    {
        proof {
            reveal_with_fuel(Seq::<_>::filter, 1);
            assert(text.take(k - i + 1).drop_last() =~= text.take(k - i));
            assert(text.take(k - i + 1).last() == cs@[k as int]);
        }
        if cs[k] != '_' {
            out.push(cs[k]);
        }
        k = k + 1;
    }
    assert(text.take(end - i) =~= text);
    out
}

fn scan_ident(cs: &Vec<char>, i: usize) -> (r: usize)
    requires
        i <= cs.len(),
    ensures
        r == ident_end(cs@, i as int),
        i <= r <= cs.len(),
{
    let mut k = i;
    while k < cs.len() && (char_is_alphanumeric(cs[k]) || cs[k] == '_')
        invariant
            i <= k <= cs.len(),
            ident_end(cs@, i as int) == ident_end(cs@, k as int),
        decreases cs.len() - k,
    {
        k = k + 1;
    }
    k
}

fn copy_range(cs: &Vec<char>, i: usize, end: usize) -> (res: Vec<char>)
    requires
        i <= end <= cs.len(),
    ensures
        res@ == cs@.subrange(i as int, end as int),
{
    let mut out: Vec<char> = Vec::new();
    let mut k = i;
    while k < end
        invariant
            i <= k <= end <= cs.len(),
            out@ == cs@.subrange(i as int, k as int),
        decreases end - k,
    {
        out.push(cs[k]);
        k = k + 1;
    }
    out
}

fn find_comment_close(cs: &Vec<char>, j: usize) -> (res: Option<usize>)
    ensures
        match res {
            Some(k) => close_at_or_after(cs@, j as int) == Some(k as int) && j <= k && k + 1 < cs.len(),
            None => close_at_or_after(cs@, j as int) is None,
        },
{
    let mut k = j;
    while k < cs.len() && cs.len() - k > 1
        invariant
            j <= k,
            close_at_or_after(cs@, j as int) == close_at_or_after(cs@, k as int),
        decreases cs.len() - k,
    {
        if cs[k] == '*' && cs[k + 1] == '/' {
            return Some(k);
        }
        k = k + 1;
    }
    None
}

fn quoted_close(cs: &Vec<char>, start: usize, q: char) -> (r: usize)
    requires
        start <= cs.len(),
    ensures
        r == quoted_end(cs@, start as int, q),
        start <= r <= cs.len(),
{
    let len = cs.len();
    let mut k = start;
    while k < len
        invariant
            len == cs.len(),
            start <= k <= len,
            quoted_end(cs@, start as int, q) == quoted_end(cs@, k as int, q),
        decreases len - k,
    {
        if cs[k] == '\\' {
            assert(quoted_end(cs@, len + 1, q) == len);
            k = if len - k >= 2 { k + 2 } else { len };
            continue;
        }
        if cs[k] == q {
            return k + 1;
        }
        k = k + 1;
    }
    len
}

/// What the lexer does at one position, as values
pub enum Step {
    Skip(usize),
    Stop,
    Fail,
    Emit(Token, usize),
}

pub open spec fn step_matches(r: Step, spec: LexStep) -> bool {
    match (r, spec) {
        (Step::Skip(j), LexStep::Skip(k)) => j == k,
        (Step::Stop, LexStep::Stop) => true,
        (Step::Fail, LexStep::Fail) => true,
        (Step::Emit(t, j), LexStep::Emit(u, k)) => t@ == u && j == k,
        _ => false,
    }
}

proof fn lemma_ident_end(s: Seq<char>, i: int)
    requires
        0 <= i <= s.len(),
    ensures
        i <= ident_end(s, i) <= s.len(),
    decreases s.len() - i,
{
    if i < s.len() && (alphanumeric(s[i]) || s[i] == '_') {
        lemma_ident_end(s, i + 1);
    }
}

fn next_token(cs: &Vec<char>, i: usize) -> (r: Step)
    requires
        i < cs.len(),
    ensures
        step_matches(r, lex_step(cs@, i as int)),
        match r {
            Step::Skip(j) => i < j <= cs.len(),
            Step::Emit(_, j) => i < j <= cs.len(),
            _ => true,
        },
{
    let len = cs.len();
    let c = cs[i];
    if char_is_whitespace(c) || c == '\\' {
        return Step::Skip(i + 1);
    }
    if c == '/' && i + 1 < len && cs[i + 1] == '/' {
        return Step::Stop;
    }
    if c == '/' && i + 1 < len && cs[i + 1] == '*' {
        return match find_comment_close(cs, i + 2) {
            Some(j) => Step::Skip(j + 2),
            None => Step::Stop,
        };
    }
    if 48 <= (c as u32) && (c as u32) <= 57 {
        let (end, is_float) = scan_number(cs, i);
        let clean = remove_underscores(cs, i, end);
        if is_float {
            if !is_float_literal(&clean) {
                return Step::Fail;
            }
            assert(end > i) by {
                assert(clean@.len() > 0);
                if end == i {
                    assert(cs@.subrange(i as int, end as int) =~= Seq::<char>::empty());
                    assert(Seq::<char>::empty().filter(|c: char| c != '_') =~= Seq::<char>::empty()) by {
                        reveal_with_fuel(Seq::<_>::filter, 1);
                    }
                }
            }
            return Step::Emit(Token::Float(clean), end);
        } else {
            return match int_literal_value(&clean) {
                Some(v) => {
                    assert(end > i) by {
                        if end == i {
                            assert(cs@.subrange(i as int, end as int) =~= Seq::<char>::empty());
                            assert(Seq::<char>::empty().filter(|c: char| c != '_') =~= Seq::<char>::empty()) by {
                                reveal_with_fuel(Seq::<_>::filter, 1);
                            }
                        }
                    }
                    Step::Emit(Token::Int(v), end)
                },
                None => Step::Fail,
            };
        }
    }
    if char_is_alphabetic(c) || c == '_' || c == '@' {
        let end = scan_ident(cs, i + 1);
        return Step::Emit(Token::Ident(copy_range(cs, i, end)), end);
    }
    if c == '"' || c == '\'' {
        let end = quoted_close(cs, i + 1, c);
        let raw = copy_range(cs, i, end);
        if c == '"' {
            return Step::Emit(Token::Str(raw), end);
        } else {
            let v = char_value(&raw);
            return Step::Emit(Token::Char(raw, v), end);
        }
    }
    match match_punct(cs, i) {
        Some(k) => Step::Emit(Token::Punct(k), i + punct_text(k).len()),
        None => Step::Fail,
    }
}

/// Tokenizes the characters of an expression
pub fn tokenize_chars(cs: &Vec<char>) -> (res: Option<Vec<Token>>)
    ensures
        match res {
            Some(ts) => lex(cs@, 0) == Some(tokens_view(ts@)),
            None => lex(cs@, 0) is None,
        },
{
    let len = cs.len();
    let mut out: Vec<Token> = Vec::new();
    let mut i: usize = 0;
    assert(tokens_view(out@) =~= Seq::<SpecToken>::empty());
    assert(join_tokens(Seq::<SpecToken>::empty(), lex(cs@, 0)) == lex(cs@, 0));
    while i < len
        invariant
            len == cs.len(),
            i <= len,
            lex(cs@, 0) == join_tokens(tokens_view(out@), lex(cs@, i as int)),
        decreases len - i,
    {
        let ghost before = out@;
        match next_token(cs, i) {
            Step::Skip(j) => {
                i = j;
            }
            Step::Stop => {
                assert(lex(cs@, i as int) == Some(Seq::<SpecToken>::empty()));
                assert(tokens_view(out@) + Seq::<SpecToken>::empty() =~= tokens_view(out@));
                return Some(out);
            }
            Step::Fail => {
                return None;
            }
            Step::Emit(t, j) => {
                out.push(t);
                assert(tokens_view(out@) =~= tokens_view(before) + seq![out@.last()@]);
                assert(lex(cs@, i as int) == prepend(out@.last()@, lex(cs@, j as int)));
                proof {
                    match lex(cs@, j as int) {
                        Some(rest) => {
                            assert(tokens_view(before) + (seq![out@.last()@] + rest) =~= tokens_view(out@) + rest);
                        }
                        None => {}
                    }
                }
                i = j;
            }
        }
    }
    assert(lex(cs@, len as int) == Some(Seq::<SpecToken>::empty()));
    assert(tokens_view(out@) + Seq::<SpecToken>::empty() =~= tokens_view(out@));
    Some(out)
}

/// Tokenizes an expression. Comments are skipped. Returns `None` on
/// characters that can't appear in an expression.
pub fn tokenize(src: &str) -> (res: Option<Vec<Token>>)
    ensures
        match res {
            Some(ts) => lex(src@, 0) == Some(tokens_view(ts@)),
            None => lex(src@, 0) is None,
        },
{
    let cs = chars_of(src);
    tokenize_chars(&cs)
}

} // verus!
