//! The scanner behind `preprocess`: a single pass over the bytes that
//! tracks conditional frames, records comments, tokens and macros, and the
//! byte ranges to blank out.

use vstd::prelude::*;
use vstd::utf8::encode_utf8;
use super::{Macro, MacroView, Item, RawComment, macros_view, scope_defined, scope_value, Scope,
    is_ident_byte, is_ident_start_byte, spec_utf8_len, utf8_len, is_ident, is_ident_start, strip_scan,
    strip_comments};
use crate::text::{utf8_lossy, string_from_bytes, chars_of, string_from_chars, trim, trim_start,
    trim_chars, trim_start_chars, chars_eq, is_alpha_char, is_digit_char};
use crate::expr::parse::{parse, parse_source};
use crate::expr::eval::{eval, eval_expr, defined_fn, value_fn};

verus! {

/// One level of `#if` nesting
#[derive(Clone, Copy)]
pub struct Frame {
    pub parent_active: bool,
    pub taken: bool,
    pub active: bool,
}

/// The state of a scan
pub struct ScanState {
    pub pos: int,
    pub line: int,
    pub stack: Seq<Frame>,
    pub items: Seq<Item>,
    pub macros: Seq<MacroView>,
    pub masked: Seq<(usize, usize)>,
    pub inactive_since: Option<usize>,
}

/// The byte at `i`, or 0 past either end
pub open spec fn peek(src: Seq<u8>, i: int) -> u8 {
    if 0 <= i < src.len() { src[i] } else { 0 }
}

pub open spec fn is_nl(b: u8) -> bool {
    b == 10 || b == 13
}

/// Length of the line break at `p`: `\n`, `\r\n` or a lone `\r`
pub open spec fn newline_len(src: Seq<u8>, p: int) -> int {
    if peek(src, p) == 10 {
        1
    } else if peek(src, p) == 13 {
        if peek(src, p + 1) == 10 { 2 } else { 1 }
    } else {
        0
    }
}

pub open spec fn at(st: ScanState, pos: int, line: int) -> ScanState {
    ScanState { pos: pos, line: line, ..st }
}

/// First line break (or the end) at or after `p`
pub open spec fn line_stop(src: Seq<u8>, p: int) -> int
    decreases src.len() - p,
{
    if p < 0 || p >= src.len() || is_nl(src[p]) { p } else { line_stop(src, p + 1) }
}

/// Position and line after the block comment body starting at `p`
pub open spec fn block_scan(src: Seq<u8>, p: int, line: int) -> (int, int)
    decreases src.len() - p,
{
    if p < 0 || p >= src.len() {
        (p, line)
    } else if src[p] == 42 && peek(src, p + 1) == 47 {
        (p + 2, line)
    } else if newline_len(src, p) > 0 {
        block_scan(src, p + newline_len(src, p), line + 1)
    } else {
        block_scan(src, p + 1, line)
    }
}

/// Scans the comment at the current position, recording it when asked
pub open spec fn comment_step(src: Seq<u8>, st: ScanState, record: bool) -> ScanState {
    let (e, l) = if peek(src, st.pos + 1) == 47 {
        (line_stop(src, st.pos), st.line)
    } else {
        block_scan(src, st.pos + 2, st.line)
    };
    let c = RawComment {
        start: st.pos as usize,
        end: e as usize,
        start_line: st.line as usize,
        end_line: l as usize,
    };
    ScanState {
        pos: e,
        line: l,
        items: if record { st.items.push(Item::Comment(c)) } else { st.items },
        ..st
    }
}

/// Position and line after a literal body starting at `p`: a backslash
/// escapes the next byte or line break, a line break ends it unterminated
pub open spec fn literal_scan(src: Seq<u8>, p: int, line: int, quote: u8) -> (int, int)
    decreases src.len() + 1 - p,
{
    if p < 0 || p >= src.len() {
        (p, line)
    } else if src[p] == 92 {
        let n = newline_len(src, p + 1);
        if n > 0 {
            literal_scan(src, p + 1 + n, line + 1, quote)
        } else {
            literal_scan(src, p + 2, line, quote)
        }
    } else if is_nl(src[p]) {
        (p, line)
    } else if src[p] == quote {
        (p + 1, line)
    } else {
        literal_scan(src, p + 1, line, quote)
    }
}

pub open spec fn literal_step(src: Seq<u8>, st: ScanState) -> ScanState {
    let (e, l) = literal_scan(src, st.pos + 1, st.line, peek(src, st.pos));
    at(st, e, l)
}

pub proof fn lemma_line_stop(src: Seq<u8>, p: int)
    requires
        0 <= p <= src.len(),
    ensures
        p <= line_stop(src, p) <= src.len(),
    decreases src.len() - p,
{
    if p < src.len() && !is_nl(src[p]) {
        lemma_line_stop(src, p + 1);
    }
}

pub proof fn lemma_block_scan(src: Seq<u8>, p: int, line: int)
    requires
        0 <= p <= src.len(),
    ensures
        p <= block_scan(src, p, line).0 <= src.len(),
        line <= block_scan(src, p, line).1,
        block_scan(src, p, line).1 - line <= block_scan(src, p, line).0 - p,
    decreases src.len() - p,
{
    if p < src.len() {
        if src[p] == 42 && peek(src, p + 1) == 47 {
        } else if newline_len(src, p) > 0 {
            lemma_block_scan(src, p + newline_len(src, p), line + 1);
        } else {
            lemma_block_scan(src, p + 1, line);
        }
    }
}

pub proof fn lemma_literal_scan(src: Seq<u8>, p: int, line: int, quote: u8)
    requires
        0 <= p <= src.len() + 1,
    ensures
        p <= literal_scan(src, p, line, quote).0 <= src.len() + 1,
        line <= literal_scan(src, p, line, quote).1,
        literal_scan(src, p, line, quote).1 - line <= literal_scan(src, p, line, quote).0 - p,
    decreases src.len() + 1 - p,
{
    if p < src.len() {
        if src[p] == 92 {
            let n = newline_len(src, p + 1);
            if n > 0 {
                lemma_literal_scan(src, p + 1 + n, line + 1, quote);
            } else {
                lemma_literal_scan(src, p + 2, line, quote);
            }
        } else if !is_nl(src[p]) && src[p] != quote {
            lemma_literal_scan(src, p + 1, line, quote);
        }
    }
}

/// Whether the stack's innermost frame (if any) is active
pub open spec fn active(st: ScanState) -> bool {
    st.stack.len() == 0 || st.stack.last().active
}

/// Records a token on `line`; an ordinary token on the line of the last
/// recorded token adds nothing
pub open spec fn push_token(st: ScanState, line: int, directive: bool) -> ScanState {
    if !directive && st.items.len() > 0 && (st.items.last() matches Item::Token { line: l, .. } && l == line) {
        st
    } else {
        ScanState { items: st.items.push(Item::Token { line: line as usize, directive: directive }), ..st }
    }
}

/// Opens or closes the masked inactive range after a conditional
/// directive spanning `start..end`
pub open spec fn update_inactive(st: ScanState, start: int, end: int) -> ScanState {
    match st.inactive_since {
        Some(since) => if active(st) {
            ScanState { masked: st.masked.push((since, start as usize)), inactive_since: None, ..st }
        } else {
            st
        },
        None => if !active(st) {
            ScanState { inactive_since: Some(end as usize), ..st }
        } else {
            st
        },
    }
}

pub open spec fn push_frame(st: ScanState, f: Frame, end: int) -> ScanState {
    let pushed = ScanState { stack: st.stack.push(f), ..st };
    if active(st) && !f.active {
        ScanState { inactive_since: Some(end as usize), ..pushed }
    } else {
        pushed
    }
}

pub open spec fn set_top(st: ScanState, is_active: bool, taken: bool, start: int, end: int) -> ScanState {
    let f = st.stack.last();
    let g = Frame { parent_active: f.parent_active, taken: taken, active: is_active };
    update_inactive(ScanState { stack: st.stack.update(st.stack.len() - 1, g), ..st }, start, end)
}

pub open spec fn undefine_one(m: MacroView, name: Seq<char>, at: int) -> MacroView {
    if m.name == name && m.undefined_at is None {
        MacroView { undefined_at: Some(at as usize), ..m }
    } else {
        m
    }
}

/// Marks every macro named `name` not removed yet as removed at `at`
pub open spec fn undefine(st: ScanState, name: Seq<char>, at: int) -> ScanState {
    ScanState { macros: st.macros.map_values(|m: MacroView| undefine_one(m, name, at)), ..st }
}

/// Characters that continue a directive name: ASCII letters, digits, `_`
/// and anything beyond ASCII
pub open spec fn ident_char(c: char) -> bool {
    is_alpha_char(c) || is_digit_char(c) || c == '_' || (c as u32) >= 0x80
}

/// End of the run of directive name characters starting at `i`
pub open spec fn ident_run(s: Seq<char>, i: int) -> int
    decreases s.len() - i,
{
    if 0 <= i < s.len() && ident_char(s[i]) { ident_run(s, i + 1) } else { i }
}

/// End of the run of identifier bytes starting at `i`
pub open spec fn ident_byte_run(b: Seq<u8>, i: int) -> int
    decreases b.len() - i,
{
    if 0 <= i < b.len() && is_ident_byte(b[i]) { ident_byte_run(b, i + 1) } else { i }
}

/// The name an `#undef` removes: the leading identifier bytes of the
/// UTF-8 text, each taken as the character with that code
pub open spec fn undef_name(rest: Seq<char>) -> Seq<char> {
    let b = encode_utf8(rest);
    Seq::new(ident_byte_run(b, 0) as nat, |i: int| b[i] as char)
}

/// Whether a condition holds at `offset`: it parses and evaluates to
/// something other than 0
pub open spec fn eval_cond(ms: Seq<MacroView>, cond: Seq<char>, offset: int) -> bool {
    match parse_source(cond) {
        Some(e) => match eval_expr(
            |n: Seq<char>| scope_defined(ms, offset, n),
            |n: Seq<char>| scope_value(ms, offset, n),
            e,
            0,
        ) {
            Some(v) => v != 0,
            None => false,
        },
        None => false,
    }
}

/// First byte in `p..end` that is neither space nor tab
pub open spec fn skip_blanks(src: Seq<u8>, p: int, end: int) -> int
    decreases end - p,
{
    if 0 <= p < end && p < src.len() && (src[p] == 32 || src[p] == 9) { skip_blanks(src, p + 1, end) } else { p }
}

/// First byte in `p..end` that is not a space, tab, backslash or line break
pub open spec fn skip_ws_cont(src: Seq<u8>, p: int, end: int) -> int
    decreases end - p,
{
    if 0 <= p < end && p < src.len() && (src[p] == 32 || src[p] == 9 || src[p] == 92 || is_nl(src[p])) {
        skip_ws_cont(src, p + 1, end)
    } else {
        p
    }
}

/// First byte in `p..end` that is not a space, tab or line break
pub open spec fn skip_space_nl(src: Seq<u8>, p: int, end: int) -> int
    decreases end - p,
{
    if 0 <= p < end && p < src.len() && (src[p] == 32 || src[p] == 9 || is_nl(src[p])) {
        skip_space_nl(src, p + 1, end)
    } else {
        p
    }
}

/// End of the identifier bytes in `p..end`
pub open spec fn ident_end(src: Seq<u8>, p: int, end: int) -> int
    decreases end - p,
{
    if 0 <= p < end && p < src.len() && is_ident_byte(src[p]) { ident_end(src, p + 1, end) } else { p }
}

/// First `)` in `p..end` (or `end`)
pub open spec fn paren_close(src: Seq<u8>, p: int, end: int) -> int
    decreases end - p,
{
    if 0 <= p < end && p < src.len() && src[p] != 41 { paren_close(src, p + 1, end) } else { p }
}

/// First `*/` at or after `j`
pub open spec fn close_from(src: Seq<u8>, j: int) -> Option<int>
    decreases src.len() - j,
{
    if j < 0 || j + 1 >= src.len() {
        None
    } else if src[j] == 42 && src[j + 1] == 47 {
        Some(j)
    } else {
        close_from(src, j + 1)
    }
}

pub proof fn lemma_skip_space_nl(src: Seq<u8>, p: int, end: int)
    requires
        0 <= p,
    ensures
        p <= skip_space_nl(src, p, end),
        skip_space_nl(src, p, end) <= p || skip_space_nl(src, p, end) <= end,
    decreases end - p,
{
    if 0 <= p < end && p < src.len() && (src[p] == 32 || src[p] == 9 || is_nl(src[p])) {
        lemma_skip_space_nl(src, p + 1, end);
    }
}

pub proof fn lemma_close_from(src: Seq<u8>, j: int)
    ensures
        close_from(src, j) matches Some(e) ==> j <= e && e + 1 < src.len(),
    decreases src.len() - j,
{
    if !(j < 0 || j + 1 >= src.len()) && !(src[j] == 42 && src[j + 1] == 47) {
        lemma_close_from(src, j + 1);
    }
}

/// Skips white space, line continuations and block comments in `p..end`
/// before a macro's replacement text
pub open spec fn skip_gap(src: Seq<u8>, p: int, end: int) -> int
    decreases src.len() + 3 - p,
{
    if p < 0 || end > src.len() {
        p
    } else {
        let q = skip_space_nl(src, p, end);
        proof {
            lemma_skip_space_nl(src, p, end);
        }
        if q + 1 < end && src[q] == 92 && is_nl(src[q + 1]) {
            skip_gap(src, q + 1, end)
        } else if q + 1 < end && src[q] == 47 && src[q + 1] == 42 {
            proof {
                lemma_close_from(src, q + 2);
            }
            match close_from(src, q + 2) {
                Some(e) => skip_gap(src, e + 2, end),
                None => q,
            }
        } else {
            q
        }
    }
}

/// Records the `#define` at `directive` whose body ends at `body_end`
pub open spec fn define_step(src: Seq<u8>, st: ScanState, directive: int, body_start: Option<usize>,
    body_end: int) -> ScanState
{
    if body_start is None || body_end > src.len() || directive < 0 {
        st
    } else {
        let p = skip_ws_cont(src, skip_blanks(src, directive + 1, body_end) + 6, body_end);
        if p >= body_end || !is_ident_start_byte(src[p]) {
            st
        } else {
            let name_end = ident_end(src, p, body_end);
            let name = utf8_lossy(src.subrange(p, name_end));
            let function_like = name_end < body_end && src[name_end] == 40;
            let after = if function_like { paren_close(src, name_end, body_end) + 1 } else { name_end };
            let v = skip_gap(src, after, body_end);
            let value = if v < body_end { utf8_lossy(src.subrange(v, body_end)) } else { Seq::empty() };
            let st2 = undefine(st, name, directive);
            let m = MacroView {
                name: name,
                value: value,
                clean_value: trim(strip_scan(value, 0)),
                function_like: function_like,
                offset: (if v < body_end { v } else { p }) as usize,
                defined_at: directive as usize,
                undefined_at: None,
            };
            ScanState { macros: st2.macros.push(m), ..st2 }
        }
    }
}

pub proof fn lemma_comment_step(src: Seq<u8>, st: ScanState, record: bool)
    requires
        0 <= st.pos,
        st.pos + 1 < src.len(),
        src[st.pos] == 47,
        src[st.pos + 1] == 47 || src[st.pos + 1] == 42,
    ensures
        st.pos < comment_step(src, st, record).pos <= src.len(),
        st.line <= comment_step(src, st, record).line,
        comment_step(src, st, record).line - st.line <= comment_step(src, st, record).pos - st.pos,
{
    if src[st.pos + 1] == 47 {
        lemma_line_stop(src, st.pos);
        assert(line_stop(src, st.pos) == line_stop(src, st.pos + 1));
        lemma_line_stop(src, st.pos + 1);
    } else {
        lemma_block_scan(src, st.pos + 2, st.line);
    }
}

/// The body of a directive line: comments are recorded when the directive
/// is active and read as a space, as are line continuations; literals and
/// other characters are copied. Tracks where the non blank body starts and
/// ends. `None` when a literal runs past the end of the source.
pub open spec fn dir_collect(src: Seq<u8>, st: ScanState, was_active: bool, clean: Seq<char>,
    body_start: Option<usize>, body_end: int) -> Option<(ScanState, Seq<char>, Option<usize>, int)>
    decreases src.len() + 2 - st.pos,
{
    if st.pos < 0 || st.pos >= src.len() || is_nl(src[st.pos]) {
        Some((st, clean, body_start, body_end))
    } else {
        let c = src[st.pos];
        if c == 92 && is_nl(peek(src, st.pos + 1)) {
            let n = newline_len(src, st.pos + 1);
            dir_collect(src, at(st, st.pos + 1 + n, st.line + 1), was_active, clean.push(' '), body_start, body_end)
        } else if c == 47 && (peek(src, st.pos + 1) == 47 || peek(src, st.pos + 1) == 42) {
            proof {
                lemma_comment_step(src, st, was_active);
            }
            dir_collect(src, comment_step(src, st, was_active), was_active, clean.push(' '), body_start, body_end)
        } else if c == 34 || c == 39 {
            let st2 = literal_step(src, st);
            proof {
                lemma_literal_scan(src, st.pos + 1, st.line, c);
            }
            if st2.pos > src.len() {
                None
            } else {
                let bs = if body_start is None { Some(st.pos as usize) } else { body_start };
                dir_collect(src, st2, was_active, clean + utf8_lossy(src.subrange(st.pos, st2.pos)), bs, st2.pos)
            }
        } else {
            let blank = c == 32 || c == 9;
            let bs = if !blank && body_start is None { Some(st.pos as usize) } else { body_start };
            let end = if st.pos + spec_utf8_len(c) <= src.len() { st.pos + spec_utf8_len(c) } else { src.len() as int };
            let be = if !blank { end } else { body_end };
            dir_collect(src, at(st, end, st.line), was_active, clean + utf8_lossy(src.subrange(st.pos, end)), bs, be)
        }
    }
}

pub open spec fn word_if() -> Seq<char> { seq!['i', 'f'] }
pub open spec fn word_elseif() -> Seq<char> { seq!['e', 'l', 's', 'e', 'i', 'f'] }
pub open spec fn word_elif() -> Seq<char> { seq!['e', 'l', 'i', 'f'] }
pub open spec fn word_else() -> Seq<char> { seq!['e', 'l', 's', 'e'] }
pub open spec fn word_endif() -> Seq<char> { seq!['e', 'n', 'd', 'i', 'f'] }
pub open spec fn word_define() -> Seq<char> { seq!['d', 'e', 'f', 'i', 'n', 'e'] }
pub open spec fn word_undef() -> Seq<char> { seq!['u', 'n', 'd', 'e', 'f'] }
pub open spec fn word_endinput() -> Seq<char> { seq!['e', 'n', 'd', 'i', 'n', 'p', 'u', 't'] }

/// What a directive named `name` with argument text `rest`, spanning
/// `start..end`, does; the flag is false for `#endinput`
pub open spec fn dispatch(src: Seq<u8>, st: ScanState, name: Seq<char>, rest: Seq<char>, start: int,
    end: int, was_active: bool, body_start: Option<usize>, body_end: int) -> (ScanState, bool)
{
    if name == word_if() {
        let parent = active(st);
        let cond = parent && eval_cond(st.macros, rest, start);
        (push_frame(st, Frame { parent_active: parent, taken: cond || !parent, active: cond }, end), true)
    } else if name == word_elseif() || name == word_elif() {
        if st.stack.len() > 0 {
            let f = st.stack.last();
            let cond = !f.taken && f.parent_active && eval_cond(st.macros, rest, start);
            (set_top(st, cond, f.taken || cond, start, end), true)
        } else {
            (st, true)
        }
    } else if name == word_else() {
        if st.stack.len() > 0 {
            let f = st.stack.last();
            (set_top(st, f.parent_active && !f.taken, true, start, end), true)
        } else {
            (st, true)
        }
    } else if name == word_endif() {
        if st.stack.len() > 0 {
            (update_inactive(ScanState { stack: st.stack.drop_last(), ..st }, start, end), true)
        } else {
            (st, true)
        }
    } else if !was_active {
        (st, true)
    } else if name == word_define() {
        (define_step(src, st, start, body_start, body_end), true)
    } else if name == word_undef() {
        (undefine(st, undef_name(rest), start), true)
    } else if name == word_endinput() {
        (ScanState { masked: st.masked.push((end as usize, src.len() as usize)), ..st }, false)
    } else {
        (st, true)
    }
}

/// The directive at the current position; `None` when its line has a
/// literal running past the end of the source
pub open spec fn directive_step(src: Seq<u8>, st: ScanState) -> Option<(ScanState, bool)> {
    let start = st.pos;
    let was_active = active(st);
    let st1 = if was_active { push_token(st, st.line, true) } else { st };
    match dir_collect(src, at(st1, start + 1, st1.line), was_active, Seq::empty(), None, start + 1) {
        None => None,
        Some((st2, clean, body_start, body_end)) => {
            let end = st2.pos;
            let st3 = ScanState { masked: st2.masked.push((start as usize, end as usize)), ..st2 };
            let st4 = if was_active { push_token(st3, st2.line, false) } else { st3 };
            let trimmed = trim_start(clean);
            let n = ident_run(trimmed, 0);
            Some(dispatch(src, st4, trimmed.subrange(0, n), trim(trimmed.subrange(n, trimmed.len() as int)),
                start, end, was_active, body_start, body_end))
        },
    }
}

pub proof fn lemma_dir_collect(src: Seq<u8>, st: ScanState, was_active: bool, clean: Seq<char>,
    body_start: Option<usize>, body_end: int)
    requires
        0 <= st.pos <= src.len(),
    ensures
        dir_collect(src, st, was_active, clean, body_start, body_end) matches Some((st2, _, _, _))
            ==> st.pos <= st2.pos <= src.len(),
        dir_collect(src, st, was_active, clean, body_start, body_end) matches Some((st2, _, _, _))
            ==> st2.stack == st.stack && st2.macros == st.macros,
        dir_collect(src, st, was_active, clean, body_start, body_end) matches Some((st2, _, _, _))
            ==> st2.masked == st.masked && st2.inactive_since == st.inactive_since && (st2.pos >= src.len() || is_nl(
            src[st2.pos],
        )),
    decreases src.len() + 2 - st.pos,
{
    if !(st.pos >= src.len() || is_nl(src[st.pos])) {
        let c = src[st.pos];
        if c == 92 && is_nl(peek(src, st.pos + 1)) {
            let n = newline_len(src, st.pos + 1);
            lemma_dir_collect(src, at(st, st.pos + 1 + n, st.line + 1), was_active, clean.push(' '), body_start, body_end);
        } else if c == 47 && (peek(src, st.pos + 1) == 47 || peek(src, st.pos + 1) == 42) {
            lemma_comment_step(src, st, was_active);
            lemma_dir_collect(src, comment_step(src, st, was_active), was_active, clean.push(' '), body_start, body_end);
        } else if c == 34 || c == 39 {
            lemma_literal_scan(src, st.pos + 1, st.line, c);
            let st2 = literal_step(src, st);
            if st2.pos <= src.len() {
                let bs = if body_start is None { Some(st.pos as usize) } else { body_start };
                lemma_dir_collect(src, st2, was_active, clean + utf8_lossy(src.subrange(st.pos, st2.pos)), bs, st2.pos);
            }
        } else {
            let blank = c == 32 || c == 9;
            let bs = if !blank && body_start is None { Some(st.pos as usize) } else { body_start };
            let end = if st.pos + spec_utf8_len(c) <= src.len() { st.pos + spec_utf8_len(c) } else { src.len() as int };
            let be = if !blank { end } else { body_end };
            lemma_dir_collect(src, at(st, end, st.line), was_active, clean + utf8_lossy(src.subrange(st.pos, end)), bs, be);
        }
    }
}

pub proof fn lemma_directive_step(src: Seq<u8>, st: ScanState)
    requires
        0 <= st.pos < src.len(),
    ensures
        directive_step(src, st) matches Some((st2, _)) ==> st.pos < st2.pos <= src.len(),
{
    let was_active = active(st);
    let st1 = if was_active { push_token(st, st.line, true) } else { st };
    lemma_dir_collect(src, at(st1, st.pos + 1, st1.line), was_active, Seq::empty(), None, st.pos + 1);
}

/// One step of the scan from a position before the end: the next state,
/// whether the next position starts a line (blanks aside), and whether the
/// scan goes on; `None` when it faults
#[verifier::opaque]
pub open spec fn scan_step(src: Seq<u8>, st: ScanState, line_start: bool) -> Option<(ScanState, bool, bool)> {
    let c = src[st.pos];
    if newline_len(src, st.pos) > 0 {
        Some((at(st, st.pos + newline_len(src, st.pos), st.line + 1), true, true))
    } else if c == 32 || c == 9 || c == 11 || c == 12 {
        Some((at(st, st.pos + 1, st.line), line_start, true))
    } else if c == 92 && is_nl(peek(src, st.pos + 1)) {
        Some((at(st, st.pos + 1 + newline_len(src, st.pos + 1), st.line + 1), line_start, true))
    } else if c == 47 && (peek(src, st.pos + 1) == 47 || peek(src, st.pos + 1) == 42) {
        Some((comment_step(src, st, active(st)), line_start, true))
    } else if line_start && c == 35 {
        match directive_step(src, st) {
            None => None,
            Some((st2, go_on)) => Some((st2, true, go_on)),
        }
    } else {
        let st1 = if active(st) { push_token(st, st.line, false) } else { st };
        if c == 34 || c == 39 {
            Some((literal_step(src, st1), false, true))
        } else {
            Some((at(st1, st.pos + 1, st1.line), false, true))
        }
    }
}

pub proof fn lemma_scan_step(src: Seq<u8>, st: ScanState, line_start: bool)
    requires
        0 <= st.pos < src.len(),
    ensures
        scan_step(src, st, line_start) matches Some((st2, _, _)) ==> st.pos < st2.pos <= src.len() + 1,
{
    reveal(scan_step);
    let c = src[st.pos];
    if newline_len(src, st.pos) > 0 {
    } else if c == 32 || c == 9 || c == 11 || c == 12 {
    } else if c == 92 && is_nl(peek(src, st.pos + 1)) {
    } else if c == 47 && (peek(src, st.pos + 1) == 47 || peek(src, st.pos + 1) == 42) {
        lemma_comment_step(src, st, active(st));
    } else if line_start && c == 35 {
        lemma_directive_step(src, st);
    } else {
        lemma_literal_scan(src, st.pos + 1, st.line, c);
    }
}

/// The whole scan from a state, `line_start` telling whether only blanks
/// precede on the current line; `None` when it faults
pub open spec fn run_scan(src: Seq<u8>, st: ScanState, line_start: bool) -> Option<ScanState>
    decreases src.len() + 2 - st.pos,
{
    if st.pos < 0 || st.pos >= src.len() {
        Some(st)
    } else {
        proof {
            lemma_scan_step(src, st, line_start);
        }
        match scan_step(src, st, line_start) {
            None => None,
            Some((st2, ls, go_on)) => if go_on { run_scan(src, st2, ls) } else { Some(st2) },
        }
    }
}

pub open spec fn initial_state() -> ScanState {
    ScanState {
        pos: 0,
        line: 1,
        stack: Seq::empty(),
        items: Seq::empty(),
        macros: Seq::empty(),
        masked: Seq::empty(),
        inactive_since: None,
    }
}

/// The scan of a whole source; `None` exactly when a directive line holds
/// a literal that runs past the end of the source
pub open spec fn scan_source(src: Seq<u8>) -> Option<ScanState> {
    run_scan(src, initial_state(), true)
}

/// Every range is ordered and within the source
pub open spec fn masked_ok(src: Seq<u8>, ms: Seq<(usize, usize)>) -> bool {
    forall|k: int| 0 <= k < ms.len() ==> (#[trigger] ms[k]).0 <= ms[k].1 <= src.len()
}

/// Well-formedness of a scan state over `src`
pub open spec fn wf(src: Seq<u8>, st: ScanState) -> bool {
    &&& src.len() + 8 < usize::MAX
    &&& 0 <= st.pos <= src.len() + 1
    &&& 1 <= st.line <= st.pos + 1
    &&& st.inactive_since matches Some(s) ==> s <= st.pos && s <= src.len()
    &&& masked_ok(src, st.masked)
    &&& forall|k: int| 0 <= k < st.items.len() ==> (#[trigger] st.items[k] matches Item::Comment(c)
        ==> c.end_line <= src.len() + 2)
}

pub proof fn lemma_push_token_wf(src: Seq<u8>, st: ScanState, line: int, directive: bool)
    requires
        wf(src, st),
    ensures
        wf(src, push_token(st, line, directive)),
        push_token(st, line, directive) == (ScanState { items: push_token(st, line, directive).items, ..st }),
{
    let st2 = push_token(st, line, directive);
    assert forall|k: int| 0 <= k < st2.items.len() implies (#[trigger] st2.items[k] matches Item::Comment(c)
        ==> c.end_line <= src.len() + 2) by {
        if k < st.items.len() {
            assert(st2.items[k] == st.items[k]);
        }
    }
}

pub proof fn lemma_masked_push_wf(src: Seq<u8>, st: ScanState, a: int, b: int)
    requires
        wf(src, st),
        0 <= a <= b <= src.len(),
    ensures
        wf(src, ScanState { masked: st.masked.push((a as usize, b as usize)), ..st }),
{
    let st2 = ScanState { masked: st.masked.push((a as usize, b as usize)), ..st };
    assert forall|k: int| 0 <= k < st2.masked.len() implies (#[trigger] st2.masked[k]).0 <= st2.masked[k].1
        <= src.len() by {
        if k < st.masked.len() {
            assert(st2.masked[k] == st.masked[k]);
        }
    }
}

pub proof fn lemma_update_inactive_wf(src: Seq<u8>, st: ScanState, start: int, end: int)
    requires
        masked_ok(src, st.masked),
        st.inactive_since matches Some(s) ==> s <= start,
        0 <= start <= end <= src.len(),
        src.len() + 8 < usize::MAX,
    ensures
        masked_ok(src, update_inactive(st, start, end).masked),
        update_inactive(st, start, end).inactive_since matches Some(s) ==> s <= end,
        update_inactive(st, start, end).pos == st.pos,
        update_inactive(st, start, end).line == st.line,
        update_inactive(st, start, end).items == st.items,
{
    let st2 = update_inactive(st, start, end);
    match st.inactive_since {
        Some(since) => {
            if active(st) {
                assert(st2.masked == st.masked.push((since, start as usize)));
                assert forall|k: int| 0 <= k < st2.masked.len() implies (#[trigger] st2.masked[k]).0
                    <= st2.masked[k].1 <= src.len() by {
                    if k < st.masked.len() {
                        assert(st2.masked[k] == st.masked[k]);
                    }
                }
            } else {
                assert(st2 == st);
            }
        },
        None => {
            assert(st2.masked == st.masked);
        },
    }
}

/// A state reached from `st` by the conditional and macro directives:
/// position, line and items kept, ranges only added, the open inactive
/// range never behind the position
pub proof fn lemma_fields_wf(src: Seq<u8>, st: ScanState, st2: ScanState)
    requires
        wf(src, st),
        st2.pos == st.pos,
        st2.line == st.line,
        st2.items == st.items,
        masked_ok(src, st2.masked),
        st2.inactive_since matches Some(s) ==> s <= st2.pos && s <= src.len(),
    ensures
        wf(src, st2),
{
}

/// The scanner's state; the source is passed to each step
pub struct Scanner {
    pub pos: usize,
    pub line: usize,
    pub stack: Vec<Frame>,
    pub items: Vec<Item>,
    pub macros: Vec<Macro>,
    pub masked: Vec<(usize, usize)>,
    pub inactive_since: Option<usize>,
}

impl View for Scanner {
    type V = ScanState;

    open spec fn view(&self) -> ScanState {
        ScanState {
            pos: self.pos as int,
            line: self.line as int,
            stack: self.stack@,
            items: self.items@,
            macros: macros_view(self.macros@),
            masked: self.masked@,
            inactive_since: self.inactive_since,
        }
    }
}

fn is_name_char(c: char) -> (r: bool)
    ensures
        r == ident_char(c),
{
    let u = c as u32;
    (65 <= u && u <= 90) || (97 <= u && u <= 122) || (48 <= u && u <= 57) || c == '_' || u >= 0x80
}

fn sub_chars(s: &[char], a: usize, b: usize) -> (r: Vec<char>)
    requires
        a <= b <= s.len(),
    ensures
        r@ == s@.subrange(a as int, b as int),
{
    let mut r: Vec<char> = Vec::new();
    let mut i = a;
    while i < b
        invariant
            a <= i <= b <= s.len(),
            r@ == s@.subrange(a as int, i as int),
        decreases b - i,
    {
        r.push(s[i]);
        i = i + 1;
        assert(r@ =~= s@.subrange(a as int, i as int));
    }
    r
}

fn append_all(out: &mut Vec<char>, w: &Vec<char>)
    ensures
        final(out)@ == old(out)@ + w@,
{
    let mut i: usize = 0;
    while i < w.len()
        invariant
            i <= w.len(),
            out@ == old(out)@ + w@.subrange(0, i as int),
        decreases w.len() - i,
    {
        out.push(w[i]);
        i = i + 1;
        assert(out@ =~= old(out)@ + w@.subrange(0, i as int));
    }
    assert(w@.subrange(0, w@.len() as int) =~= w@);
}

/// Whether a condition holds at `offset`
fn evaluate(macros: &Vec<Macro>, cond: &Vec<char>, offset: usize) -> (r: bool)
    ensures
        r == eval_cond(macros_view(macros@), cond@, offset as int),
{
    let text = string_from_chars(cond.as_slice());
    match parse(text.as_str()) {
        Some(e) => {
            let scope = Scope { macros: macros, offset: offset };
            let v = eval(&e, &scope, 0);
            proof {
                let ms = macros_view(macros@);
                assert(defined_fn(scope) =~= (|n: Seq<char>| scope_defined(ms, offset as int, n)));
                assert(value_fn(scope) =~= (|n: Seq<char>| scope_value(ms, offset as int, n)));
            }
            match v {
                Some(x) => x != 0,
                None => false,
            }
        },
        None => false,
    }
}

/// The name an `#undef` with argument text `rest` removes
fn undef_name_of(rest: &Vec<char>) -> (r: Vec<char>)
    ensures
        r@ == undef_name(rest@),
{
    let text = string_from_chars(rest.as_slice());
    let b = text.as_str().as_bytes();
    let mut out: Vec<char> = Vec::new();
    let mut i: usize = 0;
    while i < b.len() && is_ident(b[i])
        invariant
            b@ == encode_utf8(rest@),
            i <= b.len(),
            ident_byte_run(b@, 0) == ident_byte_run(b@, i as int),
            out@ == Seq::new(i as nat, |j: int| b@[j] as char),
        decreases b.len() - i,
    {
        out.push(b[i] as char);
        i = i + 1;
        assert(out@ =~= Seq::new(i as nat, |j: int| b@[j] as char));
    }
    out
}

fn find_close(src: &[u8], j: usize) -> (r: Option<usize>)
    requires
        src.len() + 8 < usize::MAX,
    ensures
        match r {
            Some(e) => close_from(src@, j as int) == Some(e as int),
            None => close_from(src@, j as int) is None,
        },
        r matches Some(e) ==> j <= e && e + 1 < src.len(),
{
    proof {
        lemma_close_from(src@, j as int);
    }
    let mut k = j;
    while k < src.len() && k + 1 < src.len()
        invariant
            j <= k,
            src.len() + 8 < usize::MAX,
            close_from(src@, j as int) == close_from(src@, k as int),
        decreases src.len() - k,
    {
        if src[k] == 42 && src[k + 1] == 47 {
            return Some(k);
        }
        k = k + 1;
    }
    None
}

impl Scanner {
    fn active(&self) -> (r: bool)
        ensures
            r == active(self@),
    {
        if self.stack.len() == 0 {
            true
        } else {
            self.stack[self.stack.len() - 1].active
        }
    }

    fn push_token(&mut self, line: usize, directive: bool)
        ensures
            final(self)@ == push_token(old(self)@, line as int, directive),
    {
        if !directive && self.items.len() > 0 {
            match self.items[self.items.len() - 1] {
                Item::Token { line: l, .. } => {
                    if l == line {
                        return;
                    }
                },
                _ => {},
            }
        }
        self.items.push(Item::Token { line: line, directive: directive });
    }

    fn update_inactive(&mut self, start: usize, end: usize)
        ensures
            final(self)@ == update_inactive(old(self)@, start as int, end as int),
    {
        let a = self.active();
        match self.inactive_since {
            Some(since) => {
                if a {
                    self.masked.push((since, start));
                    self.inactive_since = None;
                }
            },
            None => {
                if !a {
                    self.inactive_since = Some(end);
                }
            },
        }
    }

    fn push_frame(&mut self, f: Frame, end: usize)
        ensures
            final(self)@ == push_frame(old(self)@, f, end as int),
    {
        let before = self.active();
        self.stack.push(f);
        if before && !f.active {
            self.inactive_since = Some(end);
        }
    }

    fn set_top(&mut self, is_active: bool, taken: bool, start: usize, end: usize)
        requires
            old(self).stack.len() > 0,
        ensures
            final(self)@ == set_top(old(self)@, is_active, taken, start as int, end as int),
    {
        let k = self.stack.len() - 1;
        let f = self.stack[k];
        self.stack.set(k, Frame { parent_active: f.parent_active, taken: taken, active: is_active });
        self.update_inactive(start, end);
    }

    fn undefine(&mut self, name: &Vec<char>, at: usize)
        ensures
            final(self)@ == undefine(old(self)@, name@, at as int),
    {
        let ghost st0 = self@;
        let mut i: usize = 0;
        while i < self.macros.len()
            invariant
                self.macros.len() == st0.macros.len(),
                i <= self.macros.len(),
                self@ == (ScanState { macros: macros_view(self.macros@), ..st0 }),
                forall|j: int| 0 <= j < i ==> macros_view(self.macros@)[j] == undefine_one(st0.macros[j], name@, at as int),
                forall|j: int| i <= j < self.macros.len() ==> macros_view(self.macros@)[j] == st0.macros[j],
            decreases self.macros.len() - i,
        {
            assert(macros_view(self.macros@)[i as int] == self.macros@[i as int]@);
            let ghost prev = self.macros@;
            if name_is_at(&self.macros, i, name) && self.macros[i].undefined_at.is_none() {
                let m = &self.macros[i];
                let nm = Macro {
                    name: m.name.clone(),
                    value: m.value.clone(),
                    clean_value: m.clean_value.clone(),
                    function_like: m.function_like,
                    offset: m.offset,
                    defined_at: m.defined_at,
                    undefined_at: Some(at),
                };
                assert(nm@ == undefine_one(st0.macros[i as int], name@, at as int));
                self.macros.set(i, nm);
            } else {
                assert(undefine_one(st0.macros[i as int], name@, at as int) == st0.macros[i as int]);
            }
            proof {
                assert(macros_view(self.macros@)[i as int] == self.macros@[i as int]@);
                assert forall|j: int| 0 <= j < i + 1 implies
                    #[trigger] macros_view(self.macros@)[j] == undefine_one(st0.macros[j], name@, at as int) by {
                    if j < i {
                        assert(self.macros@[j] == prev[j]);
                        assert(macros_view(prev)[j] == prev[j]@);
                    }
                }
                assert forall|j: int| i + 1 <= j < self.macros.len() implies
                    #[trigger] macros_view(self.macros@)[j] == st0.macros[j] by {
                    assert(self.macros@[j] == prev[j]);
                    assert(macros_view(prev)[j] == prev[j]@);
                }
            }
            i = i + 1;
        }
        assert(macros_view(self.macros@) =~= st0.macros.map_values(|m: MacroView| undefine_one(m, name@, at as int)));
    }
}

impl Scanner {
    /// Records the `#define` at `directive` whose body ends at `body_end`
    fn define(&mut self, src: &[u8], directive: usize, body_start: Option<usize>, body_end: usize)
        requires
            wf(src@, old(self)@),
            directive < body_end <= src.len(),
        ensures
            final(self)@ == define_step(src@, old(self)@, directive as int, body_start, body_end as int),
            names_nonempty(old(self)@.macros) ==> names_nonempty(final(self)@.macros),
    {
        if body_start.is_none() {
            return;
        }
        let ghost b = src@;
        let ghost be = body_end as int;
        let mut p = directive + 1;
        while p < body_end && (src[p] == 32 || src[p] == 9)
            invariant
                b == src@,
                be == body_end as int,
                directive + 1 <= p <= body_end <= src.len(),
                skip_blanks(b, directive + 1, be) == skip_blanks(b, p as int, be),
            decreases body_end - p,
        {
            p = p + 1;
        }
        p = p + 6;
        let ghost q = p as int;
        while p < body_end && (src[p] == 32 || src[p] == 9 || src[p] == 92 || src[p] == 13 || src[p] == 10)
            invariant
                b == src@,
                be == body_end as int,
                q <= p,
                p <= body_end + 7,
                body_end <= src.len(),
                src.len() + 8 < usize::MAX,
                skip_ws_cont(b, q, be) == skip_ws_cont(b, p as int, be),
            decreases body_end + 7 - p,
        {
            p = p + 1;
        }
        if p >= body_end || !is_ident_start(src[p]) {
            return;
        }
        let name_start = p;
        while p < body_end && is_ident(src[p])
            invariant
                b == src@,
                be == body_end as int,
                name_start <= p <= body_end <= src.len(),
                ident_end(b, name_start as int, be) == ident_end(b, p as int, be),
            decreases body_end - p,
        {
            p = p + 1;
        }
        let name = string_from_bytes(&src[name_start..p]);
        let mut function_like = false;
        if p < body_end && src[p] == 40 {
            function_like = true;
            let ghost r = p as int;
            while p < body_end && src[p] != 41
                invariant
                    b == src@,
                    be == body_end as int,
                b == src@,
                be == body_end as int,
                    r <= p <= body_end <= src.len(),
                    paren_close(b, r, be) == paren_close(b, p as int, be),
                decreases body_end - p,
            {
                p = p + 1;
            }
            p = p + 1;
        }
        let ghost target = skip_gap(b, p as int, be);
        let mut done = false;
        while !done
            invariant
                b == src@,
                be == body_end as int,
                p <= src.len() + 1,
                body_end <= src.len(),
                src.len() + 8 < usize::MAX,
                !done ==> skip_gap(b, p as int, be) == target,
                done ==> p == target,
            decreases src.len() + 3 - p, if done { 0int } else { 1int },
        {
            let ghost p0 = p as int;
            while p < body_end && (src[p] == 32 || src[p] == 9 || src[p] == 13 || src[p] == 10)
                invariant
                    b == src@,
                    be == body_end as int,
                b == src@,
                be == body_end as int,
                    p0 <= p <= src.len() + 1,
                    body_end <= src.len(),
                    skip_space_nl(b, p0, be) == skip_space_nl(b, p as int, be),
                decreases body_end - p,
            {
                p = p + 1;
            }
            assert(skip_space_nl(b, p as int, be) == p);
            assert(skip_space_nl(b, p0, be) == p);
            if p + 1 < body_end && src[p] == 92 && (src[p + 1] == 10 || src[p + 1] == 13) {
                assert(skip_gap(b, p0, be) == skip_gap(b, p + 1, be));
                p = p + 1;
            } else if p + 1 < body_end && src[p] == 47 && src[p + 1] == 42 {
                match find_close(src, p + 2) {
                    Some(e) => {
                        assert(skip_gap(b, p0, be) == skip_gap(b, e + 2, be));
                        p = e + 2;
                    },
                    None => {
                        done = true;
                    },
                }
            } else {
                done = true;
            }
        }
        let (value, offset) = if p < body_end {
            (string_from_bytes(&src[p..body_end]), p)
        } else {
            (String::new(), name_start)
        };
        let clean_value = strip_comments(value.as_str());
        let name_chars = chars_of(name.as_str());
        self.undefine(&name_chars, directive);
        self.macros.push(Macro {
            name: name,
            value: value,
            clean_value: clean_value,
            function_like: function_like,
            offset: offset,
            defined_at: directive,
            undefined_at: None,
        });
        proof {
            let st = self@;
            assert(st.macros == old(self)@.macros.map_values(|m: MacroView| undefine_one(m, name_chars@, directive as int))
                .push(self.macros@.last()@));
        }
    }
}

fn word(s: &Vec<char>, w: &[char]) -> (r: bool)
    ensures
        r == (s@ == w@),
{
    chars_eq(s.as_slice(), w)
}

impl Scanner {
    /// Handles the directive at the current position: `None` when its line
    /// has a literal running past the end of the source, else whether
    /// scanning goes on (it stops at `#endinput`)
    #[verifier::rlimit(30)]
    fn directive(&mut self, src: &[u8]) -> (r: Option<bool>)
        requires
            wf(src@, old(self)@),
            old(self).pos < src.len(),
        ensures
            match directive_step(src@, old(self)@) {
                None => r is None,
                Some((st, c)) => r == Some(c) && final(self)@ == st,
            },
            r is Some ==> wf(src@, final(self)@) && old(self).pos < final(self).pos <= src.len(),
            r is Some && names_nonempty(old(self)@.macros) ==> names_nonempty(final(self)@.macros),
    {
        let ghost st0 = self@;
        let start = self.pos;
        let was_active = self.active();
        if was_active {
            self.push_token(self.line, true);
        }
        assert(self@ == (ScanState { items: self@.items, ..st0 }));
        self.pos = self.pos + 1;
        let mut clean: Vec<char> = Vec::new();
        let mut body_start: Option<usize> = None;
        let mut body_end: usize = self.pos;
        let ghost st1 = self@;
        let ghost target = dir_collect(src@, st1, was_active, Seq::empty(), None, self.pos as int);
        let mut fault = false;
        let mut done = false;
        while !done
            invariant
                wf(src@, self@),
                start < self.pos,
                fault ==> done,
                self.pos <= src.len() || fault,
                start < body_end <= src.len(),
                self@.stack == st1.stack,
                self@.macros == st1.macros,
                self@.masked == st1.masked,
                self@.inactive_since == st1.inactive_since,
                !done ==> dir_collect(src@, self@, was_active, clean@, body_start, body_end as int) == target,
                done && !fault ==> target == Some((self@, clean@, body_start, body_end as int)),
                done && fault ==> target is None,
            decreases src.len() + 2 - self.pos, if done { 0int } else { 1int },
        {
            if self.pos >= src.len() {
                done = true;
            } else {
                let c = src[self.pos];
                if c == 10 || c == 13 {
                    done = true;
                } else if c == 92 && (peek_at(src, self.pos + 1) == 10 || peek_at(src, self.pos + 1) == 13) {
                    self.pos = self.pos + 1;
                    self.newline(src);
                    clean.push(' ');
                } else if c == 47 && (peek_at(src, self.pos + 1) == 47 || peek_at(src, self.pos + 1) == 42) {
                    self.comment(src, was_active);
                    clean.push(' ');
                } else if c == 34 || c == 39 {
                    let s = self.pos;
                    let ghost before = self@;
                    self.literal(src);
                    if self.pos > src.len() {
                        assert(dir_collect(src@, before, was_active, clean@, body_start, body_end as int) is None);
                        fault = true;
                        done = true;
                    } else {
                        let piece = chars_of(string_from_bytes(&src[s..self.pos]).as_str());
                        append_all(&mut clean, &piece);
                        if body_start.is_none() {
                            body_start = Some(s);
                        }
                        body_end = self.pos;
                    }
                } else {
                    let len = utf8_len(c);
                    let end = if len <= src.len() - self.pos { self.pos + len } else { src.len() };
                    if c != 32 && c != 9 {
                        if body_start.is_none() {
                            body_start = Some(self.pos);
                        }
                        body_end = end;
                    }
                    let piece = chars_of(string_from_bytes(&src[self.pos..end]).as_str());
                    append_all(&mut clean, &piece);
                    self.pos = end;
                }
            }
        }
        if fault {
            return None;
        }
        let end_line = self.line;
        let end = self.pos;
        self.masked.push((start, end));
        assert(wf(src@, self@));
        if was_active {
            proof {
                lemma_push_token_wf(src@, self@, end_line as int, false);
            }
            self.push_token(end_line, false);
        }
        let trimmed = trim_start_chars(clean.as_slice());
        let mut n: usize = 0;
        while n < trimmed.len() && is_name_char(trimmed[n])
            invariant
                n <= trimmed.len(),
                ident_run(trimmed@, 0) == ident_run(trimmed@, n as int),
            decreases trimmed.len() - n,
        {
            n = n + 1;
        }
        let name = sub_chars(trimmed.as_slice(), 0, n);
        let rest_raw = sub_chars(trimmed.as_slice(), n, trimmed.len());
        let rest = trim_chars(rest_raw.as_slice());
        assert(self@.inactive_since matches Some(s) ==> s <= start);
        assert(self@.macros == st0.macros);
        let go_on = self.dispatch(src, &name, &rest, start, end, was_active, body_start, body_end);
        Some(go_on)
    }

    /// Carries out the directive named `name` with argument text `rest`
    /// that spans `start..end`
    #[verifier::spinoff_prover]
    fn dispatch(&mut self, src: &[u8], name: &Vec<char>, rest: &Vec<char>, start: usize, end: usize,
        was_active: bool, body_start: Option<usize>, body_end: usize) -> (go_on: bool)
        requires
            wf(src@, old(self)@),
            start < end <= old(self).pos <= src.len(),
            start < body_end <= src.len(),
            old(self).inactive_since matches Some(s) ==> s <= start,
        ensures
            (final(self)@, go_on) == dispatch(src@, old(self)@, name@, rest@, start as int, end as int, was_active,
                body_start, body_end as int),
            wf(src@, final(self)@),
            final(self).pos == old(self).pos,
            names_nonempty(old(self)@.macros) ==> names_nonempty(final(self)@.macros),
    {
        let ghost st0 = self@;
        if word(name, &['i', 'f']) {
            assert(name@ == word_if());
            let parent = self.active();
            let cond = parent && evaluate(&self.macros, rest, start);
            self.push_frame(Frame { parent_active: parent, taken: cond || !parent, active: cond }, end);
        } else if word(name, &['e', 'l', 's', 'e', 'i', 'f']) || word(name, &['e', 'l', 'i', 'f']) {
            assert(name@ == word_elseif() || name@ == word_elif());
            assert(name@ != word_if());
            if self.stack.len() > 0 {
                let f = self.stack[self.stack.len() - 1];
                let cond = !f.taken && f.parent_active && evaluate(&self.macros, rest, start);
                proof {
                    let g = Frame { parent_active: f.parent_active, taken: f.taken || cond, active: cond };
                    lemma_update_inactive_wf(src@, ScanState { stack: st0.stack.update(st0.stack.len() - 1, g), ..st0 },
                        start as int, end as int);
                }
                self.set_top(cond, f.taken || cond, start, end);
            }
        } else if word(name, &['e', 'l', 's', 'e']) {
            assert(name@ == word_else());
            assert(name@ != word_if() && name@ != word_elseif() && name@ != word_elif());
            if self.stack.len() > 0 {
                let f = self.stack[self.stack.len() - 1];
                proof {
                    let g = Frame { parent_active: f.parent_active, taken: true, active: f.parent_active && !f.taken };
                    lemma_update_inactive_wf(src@, ScanState { stack: st0.stack.update(st0.stack.len() - 1, g), ..st0 },
                        start as int, end as int);
                }
                self.set_top(f.parent_active && !f.taken, true, start, end);
            }
        } else if word(name, &['e', 'n', 'd', 'i', 'f']) {
            assert(name@ == word_endif());
            assert(name@ != word_if() && name@ != word_elseif() && name@ != word_elif() && name@ != word_else());
            if self.stack.len() > 0 {
                self.stack.pop();
                proof {
                    assert(self@ == (ScanState { stack: st0.stack.drop_last(), ..st0 }));
                    lemma_update_inactive_wf(src@, ScanState { stack: st0.stack.drop_last(), ..st0 }, start as int,
                        end as int);
                }
                self.update_inactive(start, end);
            }
        } else if !was_active {
            assert(name@ != word_if() && name@ != word_elseif() && name@ != word_elif() && name@ != word_else()
                && name@ != word_endif());
        } else if word(name, &['d', 'e', 'f', 'i', 'n', 'e']) {
            assert(name@ == word_define());
            assert(name@ != word_if() && name@ != word_elseif() && name@ != word_elif() && name@ != word_else()
                && name@ != word_endif());
            self.define(src, start, body_start, body_end);
        } else if word(name, &['u', 'n', 'd', 'e', 'f']) {
            assert(name@ == word_undef());
            assert(name@ != word_if() && name@ != word_elseif() && name@ != word_elif() && name@ != word_else()
                && name@ != word_endif() && name@ != word_define());
            let n = undef_name_of(rest);
            self.undefine(&n, start);
            assert forall|i: int| 0 <= i < self@.macros.len() implies (#[trigger] self@.macros[i]).name == st0.macros[i].name by {}
        } else if word(name, &['e', 'n', 'd', 'i', 'n', 'p', 'u', 't']) {
            assert(name@ == word_endinput());
            assert(name@ != word_if() && name@ != word_elseif() && name@ != word_elif() && name@ != word_else()
                && name@ != word_endif() && name@ != word_define() && name@ != word_undef());
            self.masked.push((end, src.len()));
            proof {
                lemma_masked_push_wf(src@, st0, end as int, src@.len() as int);
            }
            return false;
        } else {
            assert(name@ != word_if() && name@ != word_elseif() && name@ != word_elif() && name@ != word_else()
                && name@ != word_endif() && name@ != word_define() && name@ != word_undef()
                && name@ != word_endinput());
        }
        proof {
            lemma_fields_wf(src@, st0, self@);
        }
        true
    }
}

impl Scanner {
    /// One step of the scan: `None` on a fault, else whether the next
    /// position starts a line and whether the scan goes on
    fn step(&mut self, src: &[u8], line_start: bool) -> (r: Option<(bool, bool)>)
        requires
            wf(src@, old(self)@),
            old(self).pos < src.len(),
        ensures
            match scan_step(src@, old(self)@, line_start) {
                None => r is None,
                Some((st, ls, go_on)) => r == Some((ls, go_on)) && final(self)@ == st,
            },
            r is Some ==> wf(src@, final(self)@),
            r is Some && names_nonempty(old(self)@.macros) ==> names_nonempty(final(self)@.macros),
    {
        reveal(scan_step);
        let c = src[self.pos];
        if self.newline(src) {
            return Some((true, true));
        }
        if c == 32 || c == 9 || c == 11 || c == 12 {
            self.pos = self.pos + 1;
            return Some((line_start, true));
        }
        if c == 92 && (peek_at(src, self.pos + 1) == 10 || peek_at(src, self.pos + 1) == 13) {
            self.pos = self.pos + 1;
            self.newline(src);
            return Some((line_start, true));
        }
        let a = self.active();
        if c == 47 && (peek_at(src, self.pos + 1) == 47 || peek_at(src, self.pos + 1) == 42) {
            self.comment(src, a);
            return Some((line_start, true));
        }
        if line_start && c == 35 {
            return match self.directive(src) {
                None => None,
                Some(go_on) => Some((true, go_on)),
            };
        }
        let ghost st0 = self@;
        if a {
            self.push_token(self.line, false);
        }
        assert(self@ == (ScanState { items: self@.items, ..st0 }));
        assert(wf(src@, self@));
        if c == 34 || c == 39 {
            self.literal(src);
        } else {
            self.pos = self.pos + 1;
            assert(wf(src@, self@));
        }
        Some((false, true))
    }

    pub(crate) fn run(&mut self, src: &[u8]) -> (ok: bool)
        requires
            wf(src@, old(self)@),
        ensures
            match run_scan(src@, old(self)@, true) {
                Some(st) => ok && final(self)@ == st,
                None => !ok,
            },
            ok ==> wf(src@, final(self)@),
            ok && names_nonempty(old(self)@.macros) ==> names_nonempty(final(self)@.macros),
    {
        let ghost target = run_scan(src@, self@, true);
        let mut line_start = true;
        while self.pos < src.len()
            invariant
                wf(src@, self@),
                target == run_scan(src@, old(self)@, true),
                run_scan(src@, self@, line_start) == target,
                names_nonempty(old(self)@.macros) ==> names_nonempty(self@.macros),
            decreases src.len() + 2 - self.pos,
        {
            proof {
                lemma_scan_step(src@, self@, line_start);
            }
            let ghost before = self@;
            let ghost ls0 = line_start;
            assert(run_scan(src@, before, ls0) == match scan_step(src@, before, ls0) {
                None => None,
                Some((st2, ls, go_on)) => if go_on { run_scan(src@, st2, ls) } else { Some(st2) },
            });
            match self.step(src, line_start) {
                None => {
                    return false;
                },
                Some((ls, go_on)) => {
                    if !go_on {
                        return true;
                    }
                    line_start = ls;
                },
            }
        }
        true
    }
}

fn name_is_at(macros: &Vec<Macro>, i: usize, name: &Vec<char>) -> (r: bool)
    requires
        i < macros.len(),
    ensures
        r == (macros@[i as int]@.name == name@),
{
    let cs = chars_of(macros[i].name.as_str());
    chars_eq(cs.as_slice(), name.as_slice())
}

fn peek_at(src: &[u8], i: usize) -> (r: u8)
    ensures
        r == peek(src@, i as int),
{
    if i < src.len() { src[i] } else { 0 }
}

impl Scanner {
    /// Consumes a line break at the current position if there is one
    fn newline(&mut self, src: &[u8]) -> (r: bool)
        requires
            wf(src@, old(self)@),
            old(self).pos <= src.len(),
        ensures
            r == (newline_len(src@, old(self).pos as int) > 0),
            final(self)@ == at(old(self)@, old(self).pos + newline_len(src@, old(self).pos as int),
                if r { old(self).line + 1 } else { old(self).line as int }),
            wf(src@, final(self)@),
    {
        let c = peek_at(src, self.pos);
        if c == 10 {
            self.pos = self.pos + 1;
            self.line = self.line + 1;
            true
        } else if c == 13 {
            self.pos = self.pos + 1;
            if peek_at(src, self.pos) == 10 {
                self.pos = self.pos + 1;
            }
            self.line = self.line + 1;
            true
        } else {
            false
        }
    }

    /// Scans a comment starting at the current position (`//` or `/*`)
    fn comment(&mut self, src: &[u8], record: bool)
        requires
            wf(src@, old(self)@),
            old(self).pos + 1 < src.len(),
            src@[old(self).pos as int] == 47,
            src@[old(self).pos + 1] == 47 || src@[old(self).pos + 1] == 42,
        ensures
            final(self)@ == comment_step(src@, old(self)@, record),
            wf(src@, final(self)@),
            old(self).pos < final(self).pos <= src.len(),
    {
        proof {
            lemma_comment_step(src@, self@, record);
        }
        let start = self.pos;
        let start_line = self.line;
        let ghost st0 = self@;
        if peek_at(src, self.pos + 1) == 47 {
            proof {
                lemma_line_stop(src@, start as int);
            }
            while self.pos < src.len() && !(src[self.pos] == 10 || src[self.pos] == 13)
                invariant
                    wf(src@, st0),
                    start <= self.pos <= src.len(),
                    self@ == at(st0, self.pos as int, st0.line),
                    line_stop(src@, start as int) == line_stop(src@, self.pos as int),
                decreases src.len() - self.pos,
            {
                self.pos = self.pos + 1;
            }
        } else {
            self.pos = self.pos + 2;
            proof {
                lemma_block_scan(src@, self.pos as int, self.line as int);
            }
            let ghost target = block_scan(src@, start + 2, st0.line);
            let mut done = false;
            while !done
                invariant
                    wf(src@, st0),
                    start + 2 <= self.pos <= src.len(),
                    self@ == at(st0, self.pos as int, self.line as int),
                    wf(src@, self@),
                    st0.line <= self.line,
                    self.line - st0.line <= self.pos - start - 2,
                    !done ==> block_scan(src@, self.pos as int, self.line as int) == target,
                    done ==> target == (self.pos as int, self.line as int),
                decreases src.len() - self.pos, if done { 0int } else { 1int },
            {
                if self.pos >= src.len() {
                    done = true;
                } else if src[self.pos] == 42 && peek_at(src, self.pos + 1) == 47 {
                    self.pos = self.pos + 2;
                    done = true;
                } else {
                    let ghost p = self.pos as int;
                    let ghost l = self.line as int;
                    if !self.newline(src) {
                        self.pos = self.pos + 1;
                    }
                    proof {
                        lemma_block_scan(src@, self.pos as int, self.line as int);
                    }
                }
            }
        }
        if record {
            self.items.push(Item::Comment(RawComment {
                start: start,
                end: self.pos,
                start_line: start_line,
                end_line: self.line,
            }));
        }
    }

    /// Skips a string or character literal
    fn literal(&mut self, src: &[u8])
        requires
            wf(src@, old(self)@),
            old(self).pos < src.len(),
        ensures
            final(self)@ == literal_step(src@, old(self)@),
            wf(src@, final(self)@),
            final(self).pos > old(self).pos,
    {
        let ghost st0 = self@;
        let quote = src[self.pos];
        self.pos = self.pos + 1;
        proof {
            lemma_literal_scan(src@, self.pos as int, self.line as int, quote);
        }
        let ghost target = literal_scan(src@, st0.pos + 1, st0.line, quote);
        let mut done = false;
        while !done && self.pos < src.len()
            invariant
                wf(src@, st0),
                st0.pos + 1 <= self.pos <= src.len() + 1,
                self@ == at(st0, self.pos as int, self.line as int),
                wf(src@, self@),
                st0.line <= self.line,
                self.line - st0.line <= self.pos - st0.pos - 1,
                !done ==> literal_scan(src@, self.pos as int, self.line as int, quote) == target,
                done ==> target == (self.pos as int, self.line as int),
            decreases src.len() + 1 - self.pos, if done { 0int } else { 1int },
        {
            let c = src[self.pos];
            if c == 92 {
                self.pos = self.pos + 1;
                assert(self@ == at(st0, self.pos as int, self.line as int));
                assert(wf(src@, self@));
                if !self.newline(src) {
                    self.pos = self.pos + 1;
                }
            } else if c == 10 || c == 13 {
                done = true;
            } else {
                self.pos = self.pos + 1;
                if c == quote {
                    done = true;
                }
            }
        }
    }
}

/// The conditional frames are consistent: a live branch has a live parent
/// and has been taken, a frame under a dead parent counts as taken, and
/// each frame's parent is live exactly when the frame below it is
pub open spec fn frames_ok(s: Seq<Frame>) -> bool {
    forall|k: int|
        0 <= k < s.len() ==> {
            &&& (#[trigger] s[k]).active ==> s[k].parent_active && s[k].taken
            &&& !s[k].parent_active ==> s[k].taken
            &&& s[k].parent_active == (k == 0 || s[k - 1].active)
        }
}

/// Each directive keeps the conditional frames consistent: `#if` opens a
/// frame, `#endif` closes one (if any), and an `#elseif`, `#elif` or
/// `#else` after a taken branch leaves the frame inactive
#[verifier::spinoff_prover]
#[verifier::rlimit(60)]
pub proof fn law_conditional_frames(
    src: Seq<u8>,
    st: ScanState,
    name: Seq<char>,
    rest: Seq<char>,
    start: int,
    end: int,
    was_active: bool,
    body_start: Option<usize>,
    body_end: int,
)
    requires
        frames_ok(st.stack),
    ensures
        ({
            let st2 = dispatch(src, st, name, rest, start, end, was_active, body_start, body_end).0;
            &&& frames_ok(st2.stack)
            &&& name == word_if() ==> st2.stack.len() == st.stack.len() + 1
            &&& name == word_endif() ==> st2.stack.len() == (if st.stack.len() > 0 { st.stack.len() - 1 } else { 0 })
            &&& (name == word_elseif() || name == word_elif() || name == word_else()) && st.stack.len() > 0
                && st.stack.last().taken ==> st2.stack.len() == st.stack.len() && !st2.stack.last().active
            &&& !(name == word_if() || name == word_elseif() || name == word_elif() || name == word_else()
                || name == word_endif()) ==> st2.stack == st.stack
        }),
{
    let st2 = dispatch(src, st, name, rest, start, end, was_active, body_start, body_end).0;
    if name == word_if() {
        let parent = active(st);
        assert(st2.stack.len() == st.stack.len() + 1);
        assert forall|k: int| 0 <= k < st2.stack.len() implies {
            &&& (#[trigger] st2.stack[k]).active ==> st2.stack[k].parent_active && st2.stack[k].taken
            &&& !st2.stack[k].parent_active ==> st2.stack[k].taken
            &&& st2.stack[k].parent_active == (k == 0 || st2.stack[k - 1].active)
        } by {
            if k < st.stack.len() {
                assert(st2.stack[k] == st.stack[k]);
                if k > 0 {
                    assert(st2.stack[k - 1] == st.stack[k - 1]);
                }
            } else if k > 0 {
                assert(st2.stack[k - 1] == st.stack[k - 1]);
            }
        }
    } else if name == word_elseif() || name == word_elif() || name == word_else() {
        if st.stack.len() > 0 {
            let n = st.stack.len() - 1;
            assert(st2.stack.len() == st.stack.len());
            assert forall|k: int| 0 <= k < st2.stack.len() implies {
                &&& (#[trigger] st2.stack[k]).active ==> st2.stack[k].parent_active && st2.stack[k].taken
                &&& !st2.stack[k].parent_active ==> st2.stack[k].taken
                &&& st2.stack[k].parent_active == (k == 0 || st2.stack[k - 1].active)
            } by {
                assert(st.stack[k].parent_active == (k == 0 || st.stack[k - 1].active));
                if k < n {
                    assert(st2.stack[k] == st.stack[k]);
                }
                if k > 0 {
                    assert(st2.stack[k - 1] == st.stack[k - 1]);
                }
            }
        }
    } else if name == word_endif() {
        if st.stack.len() > 0 {
            assert forall|k: int| 0 <= k < st2.stack.len() implies {
                &&& (#[trigger] st2.stack[k]).active ==> st2.stack[k].parent_active && st2.stack[k].taken
                &&& !st2.stack[k].parent_active ==> st2.stack[k].taken
                &&& st2.stack[k].parent_active == (k == 0 || st2.stack[k - 1].active)
            } by {
                assert(st2.stack[k] == st.stack[k]);
                if k > 0 {
                    assert(st2.stack[k - 1] == st.stack[k - 1]);
                }
            }
        }
    }
}

/// The name of the directive at the current position: the identifier
/// after `#` on the joined directive line; `None` when the line has a
/// literal running past the end of the source
pub open spec fn directive_name(src: Seq<u8>, st: ScanState) -> Option<Seq<char>> {
    let was_active = active(st);
    let st1 = if was_active { push_token(st, st.line, true) } else { st };
    match dir_collect(src, at(st1, st.pos + 1, st1.line), was_active, Seq::empty(), None, st.pos + 1) {
        None => None,
        Some((_, clean, _, _)) => {
            let trimmed = trim_start(clean);
            Some(trimmed.subrange(0, ident_run(trimmed, 0)))
        },
    }
}

/// A directive keeps the conditional frames consistent: `#if` opens a
/// frame, `#endif` closes one (if any), an `#elseif`, `#elif` or `#else`
/// after a taken branch leaves the frame inactive, and other directives
/// leave the frames alone
pub proof fn law_directive_frames(src: Seq<u8>, st: ScanState)
    requires
        frames_ok(st.stack),
        0 <= st.pos < src.len(),
    ensures
        directive_step(src, st) matches Some((st2, _)) ==> ({
            let name = directive_name(src, st)->0;
            &&& frames_ok(st2.stack)
            &&& name == word_if() ==> st2.stack.len() == st.stack.len() + 1
            &&& name == word_endif() ==> st2.stack.len() == (if st.stack.len() > 0 { st.stack.len() - 1 } else { 0 })
            &&& (name == word_elseif() || name == word_elif() || name == word_else()) && st.stack.len() > 0
                && st.stack.last().taken ==> st2.stack.len() == st.stack.len() && !st2.stack.last().active
            &&& !(name == word_if() || name == word_elseif() || name == word_elif() || name == word_else()
                || name == word_endif()) ==> st2.stack == st.stack
        }),
{
    let start = st.pos;
    let was_active = active(st);
    let st1 = if was_active { push_token(st, st.line, true) } else { st };
    lemma_dir_collect(src, at(st1, start + 1, st1.line), was_active, Seq::empty(), None, start + 1);
    match dir_collect(src, at(st1, start + 1, st1.line), was_active, Seq::empty(), None, start + 1) {
        None => {},
        Some((st2, clean, body_start, body_end)) => {
            let end = st2.pos;
            let st3 = ScanState { masked: st2.masked.push((start as usize, end as usize)), ..st2 };
            let st4 = if was_active { push_token(st3, st2.line, false) } else { st3 };
            let trimmed = trim_start(clean);
            let n = ident_run(trimmed, 0);
            let nm = trimmed.subrange(0, n);
            let rest = trim(trimmed.subrange(n, trimmed.len() as int));
            assert(st4.stack == st.stack);
            law_conditional_frames(src, st4, nm, rest, start, end, was_active, body_start, body_end);
        },
    }
}

/// Every macro has a name
pub open spec fn names_nonempty(ms: Seq<MacroView>) -> bool {
    forall|i: int| 0 <= i < ms.len() ==> (#[trigger] ms[i]).name.len() > 0
}

/// At most one macro of each name is still defined
pub open spec fn one_live_each(ms: Seq<MacroView>) -> bool {
    forall|i: int, j: int|
        0 <= i < j < ms.len() && (#[trigger] ms[i]).name == (#[trigger] ms[j]).name ==> ms[i].undefined_at is Some
            || ms[j].undefined_at is Some
}

/// `#define` and `#undef` keep at most one macro of each name defined; a
/// new macro's clean value is its raw value stripped of comments and
/// continuations, and it is defined at its directive
pub proof fn law_one_live_macro(src: Seq<u8>, st: ScanState, directive: int, body_start: Option<usize>, body_end: int, name: Seq<char>, at: int)
    requires
        one_live_each(st.macros),
    ensures
        one_live_each(define_step(src, st, directive, body_start, body_end).macros),
        one_live_each(undefine(st, name, at).macros),
        define_step(src, st, directive, body_start, body_end).macros.len() > st.macros.len() ==> ({
            let m = define_step(src, st, directive, body_start, body_end).macros.last();
            &&& m.clean_value == trim(strip_scan(m.value, 0))
            &&& m.defined_at == directive as usize
            &&& m.undefined_at is None
        }),
{
    let u = undefine(st, name, at).macros;
    assert forall|i: int, j: int|
        0 <= i < j < u.len() && (#[trigger] u[i]).name == (#[trigger] u[j]).name implies u[i].undefined_at is Some
            || u[j].undefined_at is Some by {
        assert(st.macros[i].name == st.macros[j].name);
    }
    let r = define_step(src, st, directive, body_start, body_end);
    if r.macros.len() > st.macros.len() {
        let p = skip_ws_cont(src, skip_blanks(src, directive + 1, body_end) + 6, body_end);
        let name_end = ident_end(src, p, body_end);
        let n = utf8_lossy(src.subrange(p, name_end));
        let u2 = undefine(st, n, directive).macros;
        assert forall|i: int, j: int|
            0 <= i < j < r.macros.len() && (#[trigger] r.macros[i]).name == (#[trigger] r.macros[j]).name implies r.macros[i].undefined_at is Some
                || r.macros[j].undefined_at is Some by {
            assert(st.macros[i].name == st.macros[i].name);
            if j < u2.len() {
                assert(st.macros[j].name == st.macros[j].name);
            }
        }
    }
}

/// A directive keeps at most one macro of each name defined
proof fn lemma_dispatch_live(src: Seq<u8>, st: ScanState, name: Seq<char>, rest: Seq<char>, start: int, end: int,
    was_active: bool, body_start: Option<usize>, body_end: int)
    requires
        one_live_each(st.macros),
    ensures
        one_live_each(dispatch(src, st, name, rest, start, end, was_active, body_start, body_end).0.macros),
{
    law_one_live_macro(src, st, start, body_start, body_end, undef_name(rest), start);
}

proof fn lemma_step_keeps(src: Seq<u8>, st: ScanState, line_start: bool)
    requires
        0 <= st.pos < src.len(),
        frames_ok(st.stack),
        one_live_each(st.macros),
    ensures
        scan_step(src, st, line_start) matches Some((st2, _, _)) ==> frames_ok(st2.stack) && one_live_each(st2.macros),
{
    reveal(scan_step);
    let c = src[st.pos];
    if newline_len(src, st.pos) > 0 {
    } else if c == 32 || c == 9 || c == 11 || c == 12 {
    } else if c == 92 && is_nl(peek(src, st.pos + 1)) {
    } else if c == 47 && (peek(src, st.pos + 1) == 47 || peek(src, st.pos + 1) == 42) {
    } else if line_start && c == 35 {
        let start = st.pos;
        let was_active = active(st);
        let st1 = if was_active { push_token(st, st.line, true) } else { st };
        lemma_dir_collect(src, at(st1, start + 1, st1.line), was_active, Seq::empty(), None, start + 1);
        match dir_collect(src, at(st1, start + 1, st1.line), was_active, Seq::empty(), None, start + 1) {
            None => {},
            Some((st2, clean, body_start, body_end)) => {
                let end = st2.pos;
                let st3 = ScanState { masked: st2.masked.push((start as usize, end as usize)), ..st2 };
                let st4 = if was_active { push_token(st3, st2.line, false) } else { st3 };
                let trimmed = trim_start(clean);
                let n = ident_run(trimmed, 0);
                let nm = trimmed.subrange(0, n);
                let rest = trim(trimmed.subrange(n, trimmed.len() as int));
                assert(st4.stack == st.stack && st4.macros == st.macros);
                law_conditional_frames(src, st4, nm, rest, start, end, was_active, body_start, body_end);
                lemma_dispatch_live(src, st4, nm, rest, start, end, was_active, body_start, body_end);
            },
        }
    } else {
    }
}

proof fn lemma_run_keeps(src: Seq<u8>, st: ScanState, line_start: bool)
    requires
        0 <= st.pos,
        frames_ok(st.stack),
        one_live_each(st.macros),
    ensures
        run_scan(src, st, line_start) matches Some(st2) ==> frames_ok(st2.stack) && one_live_each(st2.macros),
    decreases src.len() + 2 - st.pos,
{
    if st.pos < src.len() {
        lemma_scan_step(src, st, line_start);
        lemma_step_keeps(src, st, line_start);
        match scan_step(src, st, line_start) {
            None => {},
            Some((st2, ls, go_on)) => if go_on {
                lemma_run_keeps(src, st2, ls);
            },
        }
    }
}

/// Whatever the source, the scan ends with consistent conditional frames
/// and at most one macro of each name still defined
pub proof fn law_scan_invariants(src: Seq<u8>)
    ensures
        scan_source(src) matches Some(st) ==> frames_ok(st.stack) && one_live_each(st.macros),
{
    lemma_run_keeps(src, initial_state(), true);
}

/// Macros in the order of their `#define`s, each defined before `bound`
/// and removed, if at all, after its definition and before `bound`
pub open spec fn macros_ordered(ms: Seq<MacroView>, bound: int) -> bool {
    &&& forall|i: int, j: int| 0 <= i < j < ms.len() ==> (#[trigger] ms[i]).defined_at < (#[trigger] ms[j]).defined_at
    &&& forall|i: int| 0 <= i < ms.len() ==> (#[trigger] ms[i]).defined_at < bound && (ms[i].undefined_at matches Some(
        u) ==> ms[i].defined_at < u < bound)
}

/// Every macro's clean value is its value stripped of comments and
/// continuations and trimmed
pub open spec fn clean_values(ms: Seq<MacroView>) -> bool {
    forall|i: int| 0 <= i < ms.len() ==> (#[trigger] ms[i]).clean_value == trim(strip_scan(ms[i].value, 0))
}

/// Macros in order and with their clean values
pub open spec fn macros_sound(ms: Seq<MacroView>, bound: int) -> bool {
    macros_ordered(ms, bound) && clean_values(ms)
}

proof fn lemma_undefine_ordered(ms: Seq<MacroView>, name: Seq<char>, at: int, bound: int)
    requires
        macros_sound(ms, at),
        at < bound,
        0 <= at <= usize::MAX,
    ensures
        macros_sound(ms.map_values(|m: MacroView| undefine_one(m, name, at)), bound),
{
    let u = ms.map_values(|m: MacroView| undefine_one(m, name, at));
    assert forall|i: int, j: int| 0 <= i < j < u.len() implies (#[trigger] u[i]).defined_at < (#[trigger] u[j]).defined_at by {
        assert(ms[i].defined_at < ms[j].defined_at);
    }
    assert forall|i: int| 0 <= i < u.len() implies (#[trigger] u[i]).defined_at < bound && (u[i].undefined_at matches Some(
        v) ==> u[i].defined_at < v < bound) by {
        assert(ms[i].defined_at < at);
    }
    assert forall|i: int| 0 <= i < u.len() implies (#[trigger] u[i]).clean_value == trim(strip_scan(u[i].value, 0)) by {
        assert(ms[i].clean_value == trim(strip_scan(ms[i].value, 0)));
    }
}

proof fn lemma_dispatch_ordered(src: Seq<u8>, st: ScanState, name: Seq<char>, rest: Seq<char>, start: int, end: int,
    was_active: bool, body_start: Option<usize>, body_end: int)
    requires
        macros_sound(st.macros, start),
        0 <= start < end,
        end <= usize::MAX,
        st.pos == end,
    ensures
        macros_sound(dispatch(src, st, name, rest, start, end, was_active, body_start, body_end).0.macros, end),
        dispatch(src, st, name, rest, start, end, was_active, body_start, body_end).0.pos == end,
{
    let r = dispatch(src, st, name, rest, start, end, was_active, body_start, body_end).0;
    lemma_undefine_ordered(st.macros, undef_name(rest), start, end);
    if name == word_if() || name == word_elseif() || name == word_elif() || name == word_else() || name == word_endif() {
        assert(r.macros == st.macros);
    } else if !was_active {
    } else if name == word_define() {
        let d = define_step(src, st, start, body_start, body_end);
        if d.macros != st.macros {
            let p = skip_ws_cont(src, skip_blanks(src, start + 1, body_end) + 6, body_end);
            let name_end = ident_end(src, p, body_end);
            let n = utf8_lossy(src.subrange(p, name_end));
            lemma_undefine_ordered(st.macros, n, start, end);
            let u = undefine(st, n, start).macros;
            assert(d.macros == u.push(d.macros.last()));
            assert(d.macros.last().defined_at == start);
            assert forall|i: int, j: int| 0 <= i < j < d.macros.len() implies (#[trigger] d.macros[i]).defined_at
                < (#[trigger] d.macros[j]).defined_at by {
                assert(d.macros[i] == u[i]);
                if j < u.len() {
                    assert(d.macros[j] == u[j]);
                } else {
                    assert(u[i].defined_at == st.macros[i].defined_at);
                }
            }
            assert forall|i: int| 0 <= i < d.macros.len() implies (#[trigger] d.macros[i]).defined_at < end && (
                d.macros[i].undefined_at matches Some(v) ==> d.macros[i].defined_at < v < end) by {
                if i < u.len() {
                    assert(d.macros[i] == u[i]);
                }
            }
            assert forall|i: int| 0 <= i < d.macros.len() implies (#[trigger] d.macros[i]).clean_value == trim(
                strip_scan(d.macros[i].value, 0)) by {
                if i < u.len() {
                    assert(d.macros[i] == u[i]);
                    assert(u[i].clean_value == trim(strip_scan(u[i].value, 0)));
                }
            }
        }
    } else if name == word_undef() {
    } else {
        assert(r.macros == st.macros);
    }
}

proof fn lemma_step_ordered(src: Seq<u8>, st: ScanState, line_start: bool)
    requires
        0 <= st.pos < src.len(),
        src.len() <= usize::MAX,
        macros_sound(st.macros, st.pos),
    ensures
        scan_step(src, st, line_start) matches Some((st2, _, _)) ==> macros_sound(st2.macros, st2.pos),
{
    lemma_scan_step(src, st, line_start);
    reveal(scan_step);
    let c = src[st.pos];
    if newline_len(src, st.pos) > 0 {
    } else if c == 32 || c == 9 || c == 11 || c == 12 {
    } else if c == 92 && is_nl(peek(src, st.pos + 1)) {
    } else if c == 47 && (peek(src, st.pos + 1) == 47 || peek(src, st.pos + 1) == 42) {
        lemma_comment_step(src, st, active(st));
        assert(comment_step(src, st, active(st)).macros == st.macros);
    } else if line_start && c == 35 {
        let start = st.pos;
        let was_active = active(st);
        let st1 = if was_active { push_token(st, st.line, true) } else { st };
        lemma_dir_collect(src, at(st1, start + 1, st1.line), was_active, Seq::empty(), None, start + 1);
        match dir_collect(src, at(st1, start + 1, st1.line), was_active, Seq::empty(), None, start + 1) {
            None => {},
            Some((st2, clean, body_start, body_end)) => {
                let end = st2.pos;
                let st3 = ScanState { masked: st2.masked.push((start as usize, end as usize)), ..st2 };
                let st4 = if was_active { push_token(st3, st2.line, false) } else { st3 };
                let trimmed = trim_start(clean);
                let n = ident_run(trimmed, 0);
                let nm = trimmed.subrange(0, n);
                let rest = trim(trimmed.subrange(n, trimmed.len() as int));
                assert(st4.macros == st.macros && st4.pos == end);
                lemma_dispatch_ordered(src, st4, nm, rest, start, end, was_active, body_start, body_end);
            },
        }
    } else {
        let st1 = if active(st) { push_token(st, st.line, false) } else { st };
        if c == 34 || c == 39 {
            assert(literal_step(src, st1).macros == st.macros);
        }
    }
}

proof fn lemma_run_ordered(src: Seq<u8>, st: ScanState, line_start: bool)
    requires
        0 <= st.pos,
        src.len() <= usize::MAX,
        macros_sound(st.macros, st.pos),
    ensures
        run_scan(src, st, line_start) matches Some(f) ==> macros_sound(f.macros, f.pos),
    decreases src.len() + 2 - st.pos,
{
    if st.pos < src.len() {
        lemma_scan_step(src, st, line_start);
        lemma_step_ordered(src, st, line_start);
        match scan_step(src, st, line_start) {
            None => {},
            Some((st2, ls, go_on)) => if go_on {
                lemma_run_ordered(src, st2, ls);
            },
        }
    }
}

/// Over a whole scan, the macros come in the order of their `#define`s,
/// each removed, if at all, by a directive after its own; at most one of
/// each name is still defined; and each clean value is the value stripped
/// of comments and continuations
pub proof fn law_macro_table(src: Seq<u8>)
    requires
        src.len() <= usize::MAX,
    ensures
        scan_source(src) matches Some(st) ==> macros_ordered(st.macros, st.pos) && one_live_each(st.macros)
            && clean_values(st.macros),
{
    lemma_run_ordered(src, initial_state(), true);
    lemma_run_keeps(src, initial_state(), true);
}

/// The byte at `k` is ASCII, or `k` is at or past the end
pub open spec fn ascii_or_end(src: Seq<u8>, k: int) -> bool {
    k >= src.len() || (0 <= k && src[k] < 0x80)
}

/// Every blanked range of a scan, and the start of an open inactive region,
/// falls on an ASCII byte or the end of the source
pub open spec fn masks_at_ascii(src: Seq<u8>, st: ScanState) -> bool {
    &&& forall|q: int| 0 <= q < st.masked.len() ==> ascii_or_end(src, (#[trigger] st.masked[q]).0 as int) && ascii_or_end(src, st.masked[q].1 as int)
    &&& st.inactive_since matches Some(s) ==> ascii_or_end(src, s as int)
}

proof fn lemma_update_inactive_masks(src: Seq<u8>, st: ScanState, start: int, end: int)
    requires
        masks_at_ascii(src, st),
        ascii_or_end(src, start),
        ascii_or_end(src, end),
        0 <= start,
        0 <= end,
        start <= usize::MAX,
        end <= usize::MAX,
    ensures
        masks_at_ascii(src, update_inactive(st, start, end)),
{
    let r = update_inactive(st, start, end);
    assert forall|q: int| 0 <= q < r.masked.len() implies ascii_or_end(src, (#[trigger] r.masked[q]).0 as int)
        && ascii_or_end(src, r.masked[q].1 as int) by {
        if q < st.masked.len() {
            assert(r.masked[q] == st.masked[q]);
        }
    }
}

proof fn lemma_dispatch_masks(src: Seq<u8>, st: ScanState, name: Seq<char>, rest: Seq<char>, start: int, end: int,
    was_active: bool, body_start: Option<usize>, body_end: int)
    requires
        masks_at_ascii(src, st),
        ascii_or_end(src, start),
        ascii_or_end(src, end),
        0 <= start <= end <= src.len(),
        src.len() <= usize::MAX,
    ensures
        masks_at_ascii(src, dispatch(src, st, name, rest, start, end, was_active, body_start, body_end).0),
{
    let r = dispatch(src, st, name, rest, start, end, was_active, body_start, body_end).0;
    if name == word_if() {
        let parent = active(st);
        let cond = parent && eval_cond(st.macros, rest, start);
        let f = Frame { parent_active: parent, taken: cond || !parent, active: cond };
        assert(r == push_frame(st, f, end));
    } else if name == word_elseif() || name == word_elif() || name == word_else() {
        if st.stack.len() > 0 {
            let f = st.stack.last();
            let g = if name == word_else() {
                Frame { parent_active: f.parent_active, taken: true, active: f.parent_active && !f.taken }
            } else {
                let cond = !f.taken && f.parent_active && eval_cond(st.macros, rest, start);
                Frame { parent_active: f.parent_active, taken: f.taken || cond, active: cond }
            };
            lemma_update_inactive_masks(src, ScanState { stack: st.stack.update(st.stack.len() - 1, g), ..st }, start, end);
        }
    } else if name == word_endif() {
        if st.stack.len() > 0 {
            lemma_update_inactive_masks(src, ScanState { stack: st.stack.drop_last(), ..st }, start, end);
        }
    } else if !was_active {
    } else if name == word_define() {
    } else if name == word_undef() {
    } else if name == word_endinput() {
        assert forall|q: int| 0 <= q < r.masked.len() implies ascii_or_end(src, (#[trigger] r.masked[q]).0 as int)
            && ascii_or_end(src, r.masked[q].1 as int) by {
            if q < st.masked.len() {
                assert(r.masked[q] == st.masked[q]);
            }
        }
    }
}

proof fn lemma_step_masks(src: Seq<u8>, st: ScanState, line_start: bool)
    requires
        0 <= st.pos < src.len(),
        src.len() <= usize::MAX,
        masks_at_ascii(src, st),
    ensures
        scan_step(src, st, line_start) matches Some((st2, _, _)) ==> masks_at_ascii(src, st2),
{
    reveal(scan_step);
    let c = src[st.pos];
    if newline_len(src, st.pos) > 0 {
    } else if c == 32 || c == 9 || c == 11 || c == 12 {
    } else if c == 92 && is_nl(peek(src, st.pos + 1)) {
    } else if c == 47 && (peek(src, st.pos + 1) == 47 || peek(src, st.pos + 1) == 42) {
    } else if line_start && c == 35 {
        let start = st.pos;
        let was_active = active(st);
        let st1 = if was_active { push_token(st, st.line, true) } else { st };
        lemma_dir_collect(src, at(st1, start + 1, st1.line), was_active, Seq::empty(), None, start + 1);
        match dir_collect(src, at(st1, start + 1, st1.line), was_active, Seq::empty(), None, start + 1) {
            None => {},
            Some((st2, clean, body_start, body_end)) => {
                let end = st2.pos;
                let st3 = ScanState { masked: st2.masked.push((start as usize, end as usize)), ..st2 };
                let st4 = if was_active { push_token(st3, st2.line, false) } else { st3 };
                let trimmed = trim_start(clean);
                let n = ident_run(trimmed, 0);
                let nm = trimmed.subrange(0, n);
                let rest = trim(trimmed.subrange(n, trimmed.len() as int));
                assert(ascii_or_end(src, start));
                assert(ascii_or_end(src, end));
                assert forall|q: int| 0 <= q < st4.masked.len() implies ascii_or_end(src, (#[trigger] st4.masked[q]).0 as int)
                    && ascii_or_end(src, st4.masked[q].1 as int) by {
                    if q < st.masked.len() {
                        assert(st4.masked[q] == st.masked[q]);
                    }
                }
                lemma_dispatch_masks(src, st4, nm, rest, start, end, was_active, body_start, body_end);
            },
        }
    } else {
    }
}

proof fn lemma_run_masks(src: Seq<u8>, st: ScanState, line_start: bool)
    requires
        0 <= st.pos,
        src.len() <= usize::MAX,
        masks_at_ascii(src, st),
    ensures
        run_scan(src, st, line_start) matches Some(st2) ==> masks_at_ascii(src, st2),
    decreases src.len() + 2 - st.pos,
{
    if st.pos < src.len() {
        lemma_scan_step(src, st, line_start);
        lemma_step_masks(src, st, line_start);
        match scan_step(src, st, line_start) {
            None => {},
            Some((st2, ls, go_on)) => if go_on {
                lemma_run_masks(src, st2, ls);
            },
        }
    }
}

proof fn lemma_step_stop(src: Seq<u8>, st: ScanState, line_start: bool)
    requires
        0 <= st.pos < src.len(),
        src.len() <= usize::MAX,
    ensures
        scan_step(src, st, line_start) matches Some((st2, _, go_on)) ==> go_on || (st2.masked.len() > 0
            && st2.masked.last() == (st2.pos as usize, src.len() as usize)),
{
    reveal(scan_step);
    let c = src[st.pos];
    if newline_len(src, st.pos) > 0 {
    } else if c == 32 || c == 9 || c == 11 || c == 12 {
    } else if c == 92 && is_nl(peek(src, st.pos + 1)) {
    } else if c == 47 && (peek(src, st.pos + 1) == 47 || peek(src, st.pos + 1) == 42) {
    } else if line_start && c == 35 {
        let start = st.pos;
        let was_active = active(st);
        let st1 = if was_active { push_token(st, st.line, true) } else { st };
        lemma_dir_collect(src, at(st1, start + 1, st1.line), was_active, Seq::empty(), None, start + 1);
        match dir_collect(src, at(st1, start + 1, st1.line), was_active, Seq::empty(), None, start + 1) {
            None => {},
            Some((st2, clean, body_start, body_end)) => {
                let end = st2.pos;
                let st3 = ScanState { masked: st2.masked.push((start as usize, end as usize)), ..st2 };
                let st4 = if was_active { push_token(st3, st2.line, false) } else { st3 };
                assert(st4.pos == end);
            },
        }
    } else {
    }
}

/// Where a scan ends short of the end of the source, its last blanked
/// range runs from there to the end
pub(crate) proof fn lemma_run_stop(src: Seq<u8>, st: ScanState, line_start: bool)
    requires
        0 <= st.pos,
        src.len() <= usize::MAX,
    ensures
        run_scan(src, st, line_start) matches Some(f) ==> 0 <= f.pos,
        run_scan(src, st, line_start) matches Some(f) ==> f.pos >= src.len() || (f.masked.len() > 0
            && f.masked.last() == (f.pos as usize, src.len() as usize)),
    decreases src.len() + 2 - st.pos,
{
    if st.pos < src.len() {
        lemma_scan_step(src, st, line_start);
        lemma_step_stop(src, st, line_start);
        match scan_step(src, st, line_start) {
            None => {},
            Some((st2, ls, go_on)) => if go_on {
                lemma_run_stop(src, st2, ls);
            },
        }
    }
}

/// The ranges a scan blanks begin and end on ASCII bytes (`#`, line breaks)
/// or at the end of the source, so they never cut a character
pub proof fn law_masks_at_ascii(src: Seq<u8>)
    requires
        src.len() <= usize::MAX,
    ensures
        scan_source(src) matches Some(st) ==> masks_at_ascii(src, st),
{
    lemma_run_masks(src, initial_state(), true);
}

} // verus!
