//! Minimal SourcePawn preprocessor.
//!
//! Include files are documented one at a time without resolving `#include`s,
//! so this only has to evaluate `#if`/`#elseif`/`#else`/`#endif` and drop
//! inactive branches, record `#define`s, honour `#endinput`, and collect
//! comments and a coarse token stream used for attaching documentation
//! comments to declarations.
//!
//! The text handed on has every directive line and every inactive region
//! blanked out with spaces, so byte offsets and line numbers stay those of
//! the input file.

use vstd::prelude::*;
use vstd::utf8::{encode_utf8, decode_utf8, valid_utf8, is_continuation_byte, is_char_boundary, is_leading_byte_width_1,
    valid_first_scalar, pop_first_scalar, valid_utf8_split, valid_utf8_concat, is_char_boundary_start_end_of_seq,
    is_char_boundary_iff_not_is_continuation_byte, partial_valid_utf8_extend_ascii_block, encode_utf8_valid_utf8,
    decode_utf8_encode_utf8};
use crate::text::{chars_of, string_from_chars, string_from_bytes, trim, trim_chars, is_alpha, is_digit,
    is_space, ascii_alpha, ascii_digit, ascii_space};
use self::scan::{ScanState, Scanner, scan_source, initial_state, wf, ascii_or_end, law_masks_at_ascii, law_macro_table, one_live_each, lemma_run_stop, is_nl};

pub mod scan;

verus! {

/// A `#define`d macro
#[derive(Clone, Debug)]
pub struct Macro {
    pub name: String,
    /// Raw replacement text as written in the source
    pub value: String,
    /// Replacement text with comments and line continuations removed
    pub clean_value: String,
    pub function_like: bool,
    /// Byte offset of the start of the replacement text (or the name when empty)
    pub offset: usize,
    /// Byte offset of the `#define` directive
    pub defined_at: usize,
    /// Byte offset of the `#undef` (or redefinition) removing this macro
    pub undefined_at: Option<usize>,
}

/// A macro with its texts as character sequences
pub struct MacroView {
    pub name: Seq<char>,
    pub value: Seq<char>,
    pub clean_value: Seq<char>,
    pub function_like: bool,
    pub offset: usize,
    pub defined_at: usize,
    pub undefined_at: Option<usize>,
}

impl View for Macro {
    type V = MacroView;

    open spec fn view(&self) -> MacroView {
        MacroView {
            name: self.name@,
            value: self.value@,
            clean_value: self.clean_value@,
            function_like: self.function_like,
            offset: self.offset,
            defined_at: self.defined_at,
            undefined_at: self.undefined_at,
        }
    }
}

pub open spec fn macros_view(ms: Seq<Macro>) -> Seq<MacroView> {
    ms.map_values(|m: Macro| m@)
}

/// A comment: byte range and first and last line
#[derive(Clone, Copy, Debug, PartialEq, Eq, Structural)]
pub struct RawComment {
    pub start: usize,
    pub end: usize,
    pub start_line: usize,
    pub end_line: usize,
}

#[derive(Clone, Copy, Debug, PartialEq, Eq, Structural)]
pub enum Item {
    /// Any non comment token. Only its line matters, and whether it starts
    /// a preprocessor directive.
    Token { line: usize, directive: bool },
    Comment(RawComment),
}

/// The outcome of preprocessing a file
pub struct Preprocessed {
    /// Source with directives and inactive regions blanked out
    pub text: String,
    pub items: Vec<Item>,
    pub macros: Vec<Macro>,
}

/// `__sourcepawn__`
pub open spec fn predefined_major() -> Seq<char> {
    seq!['_', '_', 's', 'o', 'u', 'r', 'c', 'e', 'p', 'a', 'w', 'n', '_', '_']
}

/// `__sourcepawn2__`
pub open spec fn predefined_two() -> Seq<char> {
    seq!['_', '_', 's', 'o', 'u', 'r', 'c', 'e', 'p', 'a', 'w', 'n', '2', '_', '_']
}

/// Macros predefined by the SourcePawn compiler and their values
pub open spec fn predefined_value(name: Seq<char>) -> Option<Seq<char>> {
    if name == predefined_major() {
        Some(seq!['2'])
    } else if name == predefined_two() {
        Some(seq!['1'])
    } else {
        None
    }
}

/// Whether a macro is in effect at byte `offset`
pub open spec fn live_at(m: MacroView, offset: int) -> bool {
    m.defined_at <= offset && match m.undefined_at {
        Some(u) => u > offset,
        None => true,
    }
}

/// Index of the last object-like macro among the first `k` named `name`
/// and in effect at `offset`
pub open spec fn macro_index(ms: Seq<MacroView>, name: Seq<char>, offset: int, k: int) -> Option<int>
    decreases k,
{
    if k <= 0 || k > ms.len() {
        None
    } else if ms[k - 1].name == name && !ms[k - 1].function_like && live_at(ms[k - 1], offset) {
        Some(k - 1)
    } else {
        macro_index(ms, name, offset, k - 1)
    }
}

/// Whether `name` is defined at `offset`: predefined, or a macro of that
/// name (object- or function-like) in effect there
pub open spec fn scope_defined(ms: Seq<MacroView>, offset: int, name: Seq<char>) -> bool {
    predefined_value(name) is Some || exists|i: int| 0 <= i < ms.len() && (#[trigger] ms[i]).name == name
        && live_at(ms[i], offset)
}

/// The value `name` has at `offset` in a condition
pub open spec fn scope_value(ms: Seq<MacroView>, offset: int, name: Seq<char>) -> Option<Seq<char>> {
    match predefined_value(name) {
        Some(v) => Some(v),
        None => match macro_index(ms, name, offset, ms.len() as int) {
            Some(i) => Some(ms[i].clean_value),
            None => None,
        },
    }
}

proof fn lemma_macro_index(ms: Seq<MacroView>, name: Seq<char>, offset: int, k: int)
    ensures
        macro_index(ms, name, offset, k) matches Some(i) ==> 0 <= i < k && i < ms.len(),
    decreases k,
{
    if 0 < k <= ms.len() {
        lemma_macro_index(ms, name, offset, k - 1);
    }
}

fn is_live(m: &Macro, offset: usize) -> (r: bool)
    ensures
        r == live_at(m@, offset as int),
{
    m.defined_at <= offset && match m.undefined_at {
        Some(u) => u > offset,
        None => true,
    }
}

fn name_is(m: &Macro, name: &Vec<char>) -> (r: bool)
    ensures
        r == (m@.name == name@),
{
    let cs = chars_of(m.name.as_str());
    crate::text::chars_eq(cs.as_slice(), name.as_slice())
}

/// The last object-like macro named `name` in effect at `offset`
pub fn macro_at(macros: &Vec<Macro>, name: &Vec<char>, offset: usize) -> (r: Option<usize>)
    ensures
        r matches Some(i) ==> i < macros.len(),
        macro_index(macros_view(macros@), name@, offset as int, macros.len() as int) matches Some(i)
            ==> 0 <= i < macros.len(),
        match macro_index(macros_view(macros@), name@, offset as int, macros.len() as int) {
            Some(i) => r == Some(i as usize),
            None => r is None,
        },
{
    let ghost ms = macros_view(macros@);
    proof {
        lemma_macro_index(ms, name@, offset as int, macros.len() as int);
    }
    let mut k = macros.len();
    while k > 0
        invariant
            k <= macros.len(),
            ms == macros_view(macros@),
            macro_index(ms, name@, offset as int, macros.len() as int) == macro_index(ms, name@, offset as int, k as int),
        decreases k,
    {
        let m = &macros[k - 1];
        if name_is(m, name) && !m.function_like && is_live(m, offset) {
            return Some(k - 1);
        }
        k = k - 1;
    }
    None
}

fn predefined_lookup(name: &Vec<char>) -> (r: Option<String>)
    ensures
        match r {
            Some(v) => predefined_value(name@) == Some(v@),
            None => predefined_value(name@) is None,
        },
{
    let major = ['_', '_', 's', 'o', 'u', 'r', 'c', 'e', 'p', 'a', 'w', 'n', '_', '_'];
    let two = ['_', '_', 's', 'o', 'u', 'r', 'c', 'e', 'p', 'a', 'w', 'n', '2', '_', '_'];
    assert(major@ == predefined_major());
    assert(two@ == predefined_two());
    if crate::text::chars_eq(name.as_slice(), major.as_slice()) {
        let v = ['2'];
        assert(v@ == seq!['2']);
        Some(string_from_chars(v.as_slice()))
    } else if crate::text::chars_eq(name.as_slice(), two.as_slice()) {
        let v = ['1'];
        assert(v@ == seq!['1']);
        Some(string_from_chars(v.as_slice()))
    } else {
        None
    }
}

/// The macros visible at one offset, as a condition sees them
pub struct Scope<'a> {
    pub macros: &'a Vec<Macro>,
    pub offset: usize,
}

impl<'a> crate::expr::eval::Definitions for Scope<'a> {
    open spec fn spec_is_defined(&self, name: Seq<char>) -> bool {
        scope_defined(macros_view(self.macros@), self.offset as int, name)
    }

    open spec fn spec_value_of(&self, name: Seq<char>) -> Option<Seq<char>> {
        scope_value(macros_view(self.macros@), self.offset as int, name)
    }

    fn is_defined(&self, name: &Vec<char>) -> (r: bool) {
        if predefined_lookup(name).is_some() {
            return true;
        }
        let ghost ms = macros_view(self.macros@);
        let mut i: usize = 0;
        while i < self.macros.len()
            invariant
                i <= self.macros.len(),
                ms == macros_view(self.macros@),
                predefined_value(name@) is None,
                forall|j: int| 0 <= j < i ==> !((#[trigger] ms[j]).name == name@ && live_at(ms[j], self.offset as int)),
            decreases self.macros.len() - i,
        {
            let m = &self.macros[i];
            if name_is(m, name) && is_live(m, self.offset) {
                assert(ms[i as int] == m@);
                return true;
            }
            i = i + 1;
        }
        false
    }

    fn value_of(&self, name: &Vec<char>) -> (r: Option<String>) {
        match predefined_lookup(name) {
            Some(v) => Some(v),
            None => match macro_at(self.macros, name, self.offset) {
                Some(i) => {
                    assert(macros_view(self.macros@)[i as int] == self.macros@[i as int]@);
                    Some(self.macros[i].clean_value.clone())
                },
                None => None,
            },
        }
    }
}

impl crate::expr::render::MacroLookup for Preprocessed {
    open spec fn spec_lookup(&self, name: Seq<char>, offset: usize) -> Option<Seq<char>> {
        match macro_index(macros_view(self.macros@), name, offset as int, self.macros@.len() as int) {
            Some(i) => Some(self.macros@[i].clean_value@),
            None => None,
        }
    }

    fn lookup(&self, name: &Vec<char>, offset: usize) -> (r: Option<String>) {
        match macro_at(&self.macros, name, offset) {
            Some(i) => {
                assert(macros_view(self.macros@)[i as int] == self.macros@[i as int]@);
                Some(self.macros[i].clean_value.clone())
            },
            None => None,
        }
    }
}

pub open spec fn is_ident_start_byte(b: u8) -> bool {
    is_alpha(b) || b == 95 || b >= 0x80
}

pub open spec fn is_ident_byte(b: u8) -> bool {
    is_alpha(b) || is_digit(b) || b == 95 || b >= 0x80
}

fn is_ident_start(b: u8) -> (r: bool)
    ensures
        r == is_ident_start_byte(b),
{
    ascii_alpha(b) || b == 95 || b >= 0x80
}

fn is_ident(b: u8) -> (r: bool)
    ensures
        r == is_ident_byte(b),
{
    ascii_alpha(b) || ascii_digit(b) || b == 95 || b >= 0x80
}

} // verus!

verus! {

/// Length of the UTF-8 sequence that `first` starts (1 for anything that
/// isn't a leading byte of a longer one)
pub open spec fn spec_utf8_len(first: u8) -> usize {
    if first >= 0xF0 { 4 } else if first >= 0xE0 { 3 } else if first >= 0xC0 { 2 } else { 1 }
}

fn utf8_len(first: u8) -> (r: usize)
    ensures
        r == spec_utf8_len(first),
        1 <= r <= 4,
{
    if first >= 0xF0 {
        4
    } else if first >= 0xE0 {
        3
    } else if first >= 0xC0 {
        2
    } else {
        1
    }
}

/// Whether `needle` occurs in `src` at `p`
pub open spec fn occurs_at(src: Seq<u8>, p: int, needle: Seq<u8>) -> bool {
    0 <= p && p + needle.len() <= src.len() && src.subrange(p, p + needle.len()) == needle
}

fn bytes_at(src: &[u8], p: usize, needle: &[u8]) -> (r: bool)
    ensures
        r == occurs_at(src@, p as int, needle@),
{
    if p > src.len() || needle.len() > src.len() - p {
        return false;
    }
    let mut k: usize = 0;
    while k < needle.len()
        invariant
            p + needle.len() <= src.len(),
            0 <= k <= needle.len(),
            forall|j: int| 0 <= j < k ==> src@[p + j] == needle@[j],
        decreases needle.len() - k,
    {
        if src[p + k] != needle[k] {
            assert(src@.subrange(p as int, p + needle.len())[k as int] != needle@[k as int]);
            return false;
        }
        k = k + 1;
    }
    assert(src@.subrange(p as int, p + needle.len()) =~= needle@);
    true
}

/// End of a string or character literal whose body starts at `i`, closed
/// by `quote`; a backslash escapes the byte after it and a line feed ends
/// the literal unterminated
pub open spec fn literal_end(b: Seq<u8>, i: int, quote: u8) -> int
    decreases b.len() + 2 - i,
{
    if i >= b.len() || i < 0 {
        b.len() as int
    } else if b[i] == 92 {
        literal_end(b, i + 2, quote)
    } else if b[i] == 10 {
        i
    } else if b[i] == quote {
        i + 1
    } else {
        literal_end(b, i + 1, quote)
    }
}

proof fn lemma_literal_end_bounds(b: Seq<u8>, i: int, quote: u8)
    requires
        0 <= i <= b.len(),
    ensures
        i <= literal_end(b, i, quote) <= b.len(),
    decreases b.len() + 2 - i,
{
    if i < b.len() {
        if b[i] == 92 {
            if i + 2 <= b.len() {
                lemma_literal_end_bounds(b, i + 2, quote);
            } else {
                assert(literal_end(b, i + 2, quote) == b.len());
            }
        } else if b[i] != 10 && b[i] != quote {
            lemma_literal_end_bounds(b, i + 1, quote);
        }
    }
}

/// Skips the literal opening at `start`, returning the index after it
fn skip_literal(bytes: &[u8], start: usize) -> (r: usize)
    requires
        start < bytes.len(),
    ensures
        r == literal_end(bytes@, start + 1, bytes@[start as int]),
        start < r <= bytes.len(),
{
    let quote = bytes[start];
    let len = bytes.len();
    let mut i = start + 1;
    proof {
        lemma_literal_end_bounds(bytes@, i as int, quote);
    }
    while i < len
        invariant
            len == bytes.len(),
            quote == bytes@[start as int],
            start < i <= len,
            literal_end(bytes@, start + 1, quote) == literal_end(bytes@, i as int, quote),
        decreases len - i,
    {
        let c = bytes[i];
        if c == 92 {
            assert(literal_end(bytes@, i as int, quote) == literal_end(bytes@, i + 2, quote));
            assert(literal_end(bytes@, len + 1, quote) == len);
            assert(literal_end(bytes@, len as int, quote) == len);
            i = if len - i >= 2 { i + 2 } else { len };
        } else if c == 10 {
            return i;
        } else if c == quote {
            return i + 1;
        } else {
            i = i + 1;
        }
    }
    assert(literal_end(bytes@, len as int, quote) == len);
    len
}

/// Index of the first line feed at or after `i` (or the end)
pub open spec fn line_comment_end(b: Seq<u8>, i: int) -> int
    decreases b.len() - i,
{
    if i < 0 || i >= b.len() || b[i] == 10 {
        if i < 0 { 0 } else if i > b.len() { b.len() as int } else { i }
    } else {
        line_comment_end(b, i + 1)
    }
}

/// Index of the `*/` closing a block comment scanned from `j` (or of the
/// last byte when there is none)
pub open spec fn block_close(b: Seq<u8>, j: int) -> int
    decreases b.len() - j,
{
    if j + 1 < b.len() && !(b[j] == 42 && b[j + 1] == 47) {
        block_close(b, j + 1)
    } else {
        j
    }
}

proof fn lemma_line_comment_end(b: Seq<u8>, i: int)
    requires
        0 <= i <= b.len(),
    ensures
        i <= line_comment_end(b, i) <= b.len(),
    decreases b.len() - i,
{
    if i < b.len() && b[i] != 10 {
        lemma_line_comment_end(b, i + 1);
    }
}

proof fn lemma_block_close(b: Seq<u8>, j: int)
    requires
        0 <= j <= b.len(),
    ensures
        j <= block_close(b, j) <= b.len(),
    decreases b.len() - j,
{
    if j + 1 < b.len() && !(b[j] == 42 && b[j + 1] == 47) {
        lemma_block_close(b, j + 1);
    }
}

fn scan_line_comment(bytes: &[u8], i: usize) -> (r: usize)
    requires
        i <= bytes.len(),
    ensures
        r == line_comment_end(bytes@, i as int),
        i <= r <= bytes.len(),
{
    let mut k = i;
    proof {
        lemma_line_comment_end(bytes@, i as int);
    }
    while k < bytes.len() && bytes[k] != 10
        invariant
            i <= k <= bytes.len(),
            line_comment_end(bytes@, i as int) == line_comment_end(bytes@, k as int),
        decreases bytes.len() - k,
    {
        k = k + 1;
    }
    k
}

fn scan_block_close(bytes: &[u8], j: usize) -> (r: usize)
    requires
        j <= bytes.len(),
    ensures
        r == block_close(bytes@, j as int),
        j <= r <= bytes.len(),
{
    let mut k = j;
    proof {
        lemma_block_close(bytes@, j as int);
    }
    while k < bytes.len() && k + 1 < bytes.len() && !(bytes[k] == 42 && bytes[k + 1] == 47)
        invariant
            j <= k <= bytes.len(),
            block_close(bytes@, j as int) == block_close(bytes@, k as int),
        decreases bytes.len() - k,
    {
        k = k + 1;
    }
    k
}

/// Where the scan continues after a block comment opening at `i`
pub open spec fn after_block(b: Seq<u8>, i: int) -> int {
    block_close(b, i + 2) + 2
}

/// The brace matching scan: from `i` with `depth` braces open, the index of
/// the `}` that closes the outermost one, skipping comments and literals
pub open spec fn brace_scan(b: Seq<u8>, i: int, depth: int) -> Option<int>
    decreases b.len() + 2 - i,
{
    if i < 0 || i >= b.len() {
        None
    } else if b[i] == 47 && i + 1 < b.len() && b[i + 1] == 47 {
        let e = line_comment_end(b, i);
        if e <= i || e > b.len() { None } else { brace_scan(b, e, depth) }
    } else if b[i] == 47 && i + 1 < b.len() && b[i + 1] == 42 {
        let e = after_block(b, i);
        if e <= i || e > b.len() + 2 { None } else { brace_scan(b, e, depth) }
    } else if b[i] == 34 || b[i] == 39 {
        let e = literal_end(b, i + 1, b[i]);
        if e <= i || e > b.len() { None } else { brace_scan(b, e, depth) }
    } else if b[i] == 123 {
        brace_scan(b, i + 1, depth + 1)
    } else if b[i] == 125 {
        if depth - 1 == 0 { Some(i) } else { brace_scan(b, i + 1, depth - 1) }
    } else {
        brace_scan(b, i + 1, depth)
    }
}

proof fn lemma_brace_scan(b: Seq<u8>, i: int, depth: int)
    requires
        0 <= i,
    ensures
        brace_scan(b, i, depth) matches Some(e) ==> i <= e < b.len() && b[e] == 125,
    decreases b.len() + 2 - i,
{
    if 0 <= i < b.len() {
        if b[i] == 47 && i + 1 < b.len() && b[i + 1] == 47 {
            let e = line_comment_end(b, i);
            if !(e <= i || e > b.len()) { lemma_brace_scan(b, e, depth); }
        } else if b[i] == 47 && i + 1 < b.len() && b[i + 1] == 42 {
            let e = after_block(b, i);
            if !(e <= i || e > b.len() + 2) { lemma_brace_scan(b, e, depth); }
        } else if b[i] == 34 || b[i] == 39 {
            let e = literal_end(b, i + 1, b[i]);
            if !(e <= i || e > b.len()) { lemma_brace_scan(b, e, depth); }
        } else if b[i] == 123 {
            lemma_brace_scan(b, i + 1, depth + 1);
        } else if b[i] == 125 {
            if depth - 1 != 0 { lemma_brace_scan(b, i + 1, depth - 1); }
        } else {
            lemma_brace_scan(b, i + 1, depth);
        }
    }
}

/// Finds the `}` closing the `{` at `open`, skipping comments and literals
fn matching_brace(bytes: &[u8], open: usize) -> (res: Option<usize>)
    requires
        open < bytes.len(),
        bytes@[open as int] == 123,
    ensures
        match res {
            Some(e) => brace_scan(bytes@, open as int, 0) == Some(e as int),
            None => brace_scan(bytes@, open as int, 0) is None,
        },
        res matches Some(e) ==> open <= e < bytes.len() && bytes@[e as int] == 125,
{
    proof {
        lemma_brace_scan(bytes@, open as int, 0);
    }
    let len = bytes.len();
    let mut depth: usize = 0;
    let mut i = open;
    while i < len
        invariant
            len == bytes.len(),
            open < len,
            bytes@[open as int] == 123,
            open <= i <= len + 2,
            i == open ==> depth == 0,
            i > open ==> depth >= 1,
            depth <= i - open,
            brace_scan(bytes@, open as int, 0) == brace_scan(bytes@, i as int, depth as int),
        decreases len + 2 - i,
    {
        let c = bytes[i];
        if c == 47 && i + 1 < len && bytes[i + 1] == 47 {
            let e = scan_line_comment(bytes, i);
            if e <= i {
                return None;
            }
            i = e;
        } else if c == 47 && i + 1 < len && bytes[i + 1] == 42 {
            let e = scan_block_close(bytes, i + 2);
            if len - e >= 2 {
                i = e + 2;
            } else {
                assert(brace_scan(bytes@, e + 2, depth as int) == None::<int>);
                assert(brace_scan(bytes@, len as int, depth as int) == None::<int>);
                i = len;
            }
        } else if c == 34 || c == 39 {
            i = skip_literal(bytes, i);
        } else if c == 123 {
            depth = depth + 1;
            i = i + 1;
        } else if c == 125 {
            if depth == 1 {
                return Some(i);
            }
            depth = depth - 1;
            i = i + 1;
        } else {
            i = i + 1;
        }
    }
    None
}


/// `b` with the bytes in `from..to` other than line breaks replaced by spaces
pub open spec fn blank_range(b: Seq<u8>, from: int, to: int) -> Seq<u8> {
    Seq::new(b.len(), |k: int| if from <= k < to && b[k] != 10 && b[k] != 13 { 32u8 } else { b[k] })
}

/// First byte in `k..end` that isn't ASCII white space (or `end`)
pub open spec fn first_non_space(b: Seq<u8>, k: int, end: int) -> int
    decreases end - k,
{
    if k >= end || !is_space(b[k]) { k } else { first_non_space(b, k + 1, end) }
}

/// The compound assignment operators that start an enum increment `(+= 1)`
pub open spec fn increment_ops() -> Seq<Seq<u8>> {
    seq![
        seq![43u8, 61u8], seq![45u8, 61u8], seq![42u8, 61u8], seq![47u8, 61u8],
        seq![124u8, 61u8], seq![38u8, 61u8], seq![94u8, 61u8], seq![126u8, 61u8],
        seq![60u8, 60u8, 61u8], seq![62u8, 62u8, 61u8], seq![61u8],
    ]
}

/// Whether the parenthesized group `start..end` starts with an assignment
/// operator, as in `enum E (<<= 1)`
pub open spec fn is_enum_increment(b: Seq<u8>, start: int, end: int) -> bool {
    let f = first_non_space(b, start, end);
    f < end && exists|k: int| 0 <= k < increment_ops().len() && f + increment_ops()[k].len() <= end
        && occurs_at(b, f, #[trigger] increment_ops()[k])
}

/// The body blanking scan at `i`, with the stack of open parentheses, the
/// last significant byte and whether the last `)` closed an enum increment
pub open spec fn body_scan(b: Seq<u8>, i: int, parens: Seq<usize>, prev: u8, inc: bool) -> Seq<u8>
    decreases b.len() + 2 - i,
{
    if i < 0 || i >= b.len() {
        b
    } else if b[i] == 47 && i + 1 < b.len() && b[i + 1] == 47 {
        let e = line_comment_end(b, i);
        if e <= i || e > b.len() { b } else { body_scan(b, e, parens, prev, inc) }
    } else if b[i] == 47 && i + 1 < b.len() && b[i + 1] == 42 {
        let e = after_block(b, i);
        if e <= i || e > b.len() + 2 { b } else { body_scan(b, e, parens, prev, inc) }
    } else if b[i] == 34 || b[i] == 39 {
        let e = literal_end(b, i + 1, b[i]);
        if e <= i || e > b.len() { b } else { body_scan(b, e, parens, b[i], inc) }
    } else if b[i] == 40 {
        body_scan(b, i + 1, parens.push((i + 1) as usize), b[i], inc)
    } else if b[i] == 41 {
        let inc2 = parens.len() > 0 && is_enum_increment(b, parens.last() as int, i);
        body_scan(b, i + 1, if parens.len() > 0 { parens.drop_last() } else { parens }, b[i], inc2)
    } else if b[i] == 123 && prev == 41 && !inc && brace_scan(b, i, 0) is Some {
        let e = brace_scan(b, i, 0)->0;
        if e < i || e >= b.len() { b } else {
            body_scan(blank_range(b, i + 1, e), e + 1, parens, 125, inc)
        }
    } else {
        body_scan(b, i + 1, parens, if is_space(b[i]) { prev } else { b[i] }, inc)
    }
}

proof fn lemma_first_non_space(b: Seq<u8>, k: int, end: int)
    requires
        k <= end,
    ensures
        k <= first_non_space(b, k, end) <= end,
        first_non_space(b, k, end) < end ==> !is_space(b[first_non_space(b, k, end)]),
    decreases end - k,
{
    if k < end && is_space(b[k]) {
        lemma_first_non_space(b, k + 1, end);
    }
}

fn enum_increment(bytes: &Vec<u8>, start: usize, end: usize) -> (r: bool)
    requires
        start <= end <= bytes.len(),
    ensures
        r == is_enum_increment(bytes@, start as int, end as int),
{
    let mut f = start;
    while f < end && ascii_space(bytes[f])
        invariant
            start <= f <= end <= bytes.len(),
            first_non_space(bytes@, start as int, end as int) == first_non_space(bytes@, f as int, end as int),
        decreases end - f,
    {
        f = f + 1;
    }
    assert(first_non_space(bytes@, f as int, end as int) == f);
    if f >= end {
        return false;
    }
    let ops: [&[u8]; 11] = [
        &[43u8, 61u8], &[45u8, 61u8], &[42u8, 61u8], &[47u8, 61u8],
        &[124u8, 61u8], &[38u8, 61u8], &[94u8, 61u8], &[126u8, 61u8],
        &[60u8, 60u8, 61u8], &[62u8, 62u8, 61u8], &[61u8],
    ];
    assert(forall|k: int| 0 <= k < 11 ==> (#[trigger] ops@[k])@ == increment_ops()[k]);
    let mut k: usize = 0;
    while k < 11
        invariant
            f < end <= bytes.len(),
            f == first_non_space(bytes@, start as int, end as int),
            0 <= k <= 11,
            forall|j: int| 0 <= j < 11 ==> (#[trigger] ops@[j])@ == increment_ops()[j],
            forall|j: int| 0 <= j < k ==> !(f + increment_ops()[j].len() <= end && occurs_at(bytes@, f as int, #[trigger] increment_ops()[j])),
        decreases 11 - k,
    {
        let op: &[u8] = ops[k];
        if op.len() <= end - f && bytes_at(bytes.as_slice(), f, op) {
            return true;
        }
        k = k + 1;
    }
    false
}

/// Blanks out the contents of function bodies: a `{` directly following a
/// parameter list `)`, unless that list was an enum increment.
#[verifier::loop_isolation(false)]
fn blank_bodies(bytes: &mut Vec<u8>)
    ensures
        final(bytes)@ == body_scan(old(bytes)@, 0, Seq::empty(), 0, false),
{
    let len = bytes.len();
    let mut i: usize = 0;
    let mut parens: Vec<usize> = Vec::new();
    let mut prev: u8 = 0;
    let mut inc = false;
    while i < len
        invariant
            len == bytes.len(),
            forall|k: int| 0 <= k < parens.len() ==> parens@[k] <= i,
            body_scan(old(bytes)@, 0, Seq::empty(), 0, false) == body_scan(bytes@, i as int, parens@, prev, inc),
        decreases len + 2 - i,
    {
        let c = bytes[i];
        if c == 47 && i + 1 < len && bytes[i + 1] == 47 {
            let e = scan_line_comment(bytes.as_slice(), i);
            proof {
                lemma_line_comment_end(bytes@, i + 1);
            }
            i = e;
            continue;
        }
        if c == 47 && i + 1 < len && bytes[i + 1] == 42 {
            let e = scan_block_close(bytes.as_slice(), i + 2);
            if len - e >= 2 {
                i = e + 2;
            } else {
                assert(body_scan(bytes@, e + 2, parens@, prev, inc) == bytes@);
                assert(body_scan(bytes@, len as int, parens@, prev, inc) == bytes@);
                i = len;
            }
            continue;
        }
        if c == 34 || c == 39 {
            i = skip_literal(bytes.as_slice(), i);
            prev = c;
            continue;
        }
        if c == 40 {
            parens.push(i + 1);
        } else if c == 41 {
            inc = match parens.pop() {
                Some(start) => enum_increment(bytes, start, i),
                None => false,
            };
        } else if c == 123 && prev == 41 && !inc {
            match matching_brace(bytes.as_slice(), i) {
                Some(end) => {
                    let ghost before = bytes@;
                    assert(brace_scan(before, i as int, 0) == Some(end as int));
                    assert(body_scan(before, i as int, parens@, prev, inc)
                        == body_scan(blank_range(before, i + 1, end as int), end + 1, parens@, 125, inc));
                    let mut k = i + 1;
                    while k < end
                        invariant
                            i < end < len,
                            len == bytes.len(),
                            i + 1 <= k <= end,
                            bytes@ == blank_range(before, i + 1, k as int),
                        decreases end - k,
                    {
                        let b = bytes[k];
                        if b != 10 && b != 13 {
                            bytes.set(k, 32);
                        }
                        k = k + 1;
                        assert(bytes@ =~= blank_range(before, i + 1, k as int));
                    }
                    assert(bytes@ == blank_range(before, i + 1, end as int));
                    i = end + 1;
                    prev = 125;
                    continue;
                }
                None => {}
            }
        }
        if !ascii_space(c) {
            prev = c;
        }
        i = i + 1;
    }
}


/// First `*/` at or after `j` in a character sequence
pub open spec fn close_at_or_after(s: Seq<char>, j: int) -> Option<int>
    decreases s.len() - j,
{
    if j < 0 || j + 1 >= s.len() {
        None
    } else if s[j] == '*' && s[j + 1] == '/' {
        Some(j)
    } else {
        close_at_or_after(s, j + 1)
    }
}

/// End of a quoted literal in a character sequence; a backslash skips the
/// character after it; the result may run past the end
pub open spec fn quoted_end(s: Seq<char>, i: int, q: char) -> int
    decreases s.len() + 2 - i,
{
    if i < 0 || i >= s.len() {
        if i < 0 { 0 } else { s.len() as int }
    } else if s[i] == '\\' {
        quoted_end(s, i + 2, q)
    } else if s[i] == q {
        i + 1
    } else {
        quoted_end(s, i + 1, q)
    }
}

/// Comment and continuation stripping of a macro body from `i`
pub open spec fn strip_scan(s: Seq<char>, i: int) -> Seq<char>
    decreases s.len() + 3 - i,
{
    if i < 0 || i >= s.len() {
        Seq::empty()
    } else if s[i] == '/' && i + 1 < s.len() && s[i + 1] == '*' {
        match close_at_or_after(s, i + 2) {
            Some(j) => if j < i || j + 1 >= s.len() { Seq::empty() } else { seq![' '] + strip_scan(s, j + 2) },
            None => Seq::empty(),
        }
    } else if s[i] == '/' && i + 1 < s.len() && s[i + 1] == '/' {
        Seq::empty()
    } else if s[i] == '"' || s[i] == '\'' {
        let e = quoted_end(s, i + 1, s[i]);
        if e <= i || e > s.len() { Seq::empty() } else { s.subrange(i, e) + strip_scan(s, e) }
    } else if s[i] == '\\' && i + 2 < s.len() && s[i + 1] == '\r' && s[i + 2] == '\n' {
        seq![' '] + strip_scan(s, i + 3)
    } else if s[i] == '\\' && i + 1 < s.len() && (s[i + 1] == '\n' || s[i + 1] == '\r') {
        seq![' '] + strip_scan(s, i + 2)
    } else {
        seq![s[i]] + strip_scan(s, i + 1)
    }
}

proof fn lemma_close_at_or_after(s: Seq<char>, j: int)
    requires
        0 <= j,
    ensures
        close_at_or_after(s, j) matches Some(k) ==> j <= k && k + 1 < s.len(),
    decreases s.len() - j,
{
    if j + 1 < s.len() && !(s[j] == '*' && s[j + 1] == '/') {
        lemma_close_at_or_after(s, j + 1);
    }
}

proof fn lemma_quoted_end(s: Seq<char>, i: int, q: char)
    requires
        0 <= i <= s.len(),
    ensures
        i <= quoted_end(s, i, q) <= s.len(),
    decreases s.len() + 2 - i,
{
    if i < s.len() {
        if s[i] == '\\' {
            if i + 2 <= s.len() {
                lemma_quoted_end(s, i + 2, q);
            } else {
                assert(quoted_end(s, i + 2, q) == s.len());
            }
        } else if s[i] != q {
            lemma_quoted_end(s, i + 1, q);
        }
    }
}

fn scan_quoted(cs: &Vec<char>, start: usize, q: char) -> (r: usize)
    requires
        start <= cs.len(),
    ensures
        r == quoted_end(cs@, start as int, q),
        start <= r <= cs.len(),
{
    proof {
        lemma_quoted_end(cs@, start as int, q);
    }
    let len = cs.len();
    let mut k = start;
    while k < len
        invariant
            len == cs.len(),
            start <= k <= len,
            quoted_end(cs@, start as int, q) == quoted_end(cs@, k as int, q),
        decreases len - k,
    {
        if cs[k] == '\\' {
            assert(quoted_end(cs@, len + 1, q) == len);
            k = if len - k >= 2 { k + 2 } else { len };
            continue;
        }
        if cs[k] == q {
            return k + 1;
        }
        k = k + 1;
    }
    len
}

fn find_close(s: &Vec<char>, j: usize) -> (res: Option<usize>)
    ensures
        match res {
            Some(k) => close_at_or_after(s@, j as int) == Some(k as int),
            None => close_at_or_after(s@, j as int) is None,
        },
{
    proof {
        lemma_close_at_or_after(s@, j as int);
    }
    let mut k = j;
    while k < s.len() && s.len() - k > 1
        invariant
            j <= k,
            close_at_or_after(s@, j as int) == close_at_or_after(s@, k as int),
        decreases s.len() - k,
    {
        if s[k] == '*' && s[k + 1] == '/' {
            return Some(k);
        }
        k = k + 1;
    }
    None
}

/// Removes comments and line continuations from a macro body, then trims it
fn strip_comments(s: &str) -> (res: String)
    ensures
        res@ == trim(strip_scan(s@, 0)),
{
    let cs = chars_of(s);
    let len = cs.len();
    let mut out: Vec<char> = Vec::new();
    let mut i: usize = 0;
    let mut stopped = false;
    while i < len && !stopped
        invariant
            len == cs.len(),
            cs@ == s@,
            i <= len,
            strip_scan(cs@, 0) == out@ + strip_scan(cs@, i as int),
            stopped ==> strip_scan(cs@, i as int) == Seq::<char>::empty(),
        decreases len - i + (if stopped { 0int } else { 1int }),
    {
        let c = cs[i];
        if c == '/' && i + 1 < len && cs[i + 1] == '*' {
            match find_close(&cs, i + 2) {
                Some(j) => {
                    proof {
                        lemma_close_at_or_after(cs@, i + 2);
                    }
                    out.push(' ');
                    assert(strip_scan(cs@, i as int) == seq![' '] + strip_scan(cs@, j + 2));
                    i = j + 2;
                }
                None => {
                    stopped = true;
                }
            }
        } else if c == '/' && i + 1 < len && cs[i + 1] == '/' {
            stopped = true;
        } else if c == '"' || c == '\'' {
            let e = scan_quoted(&cs, i + 1, c);
            let ghost before = out@;
            let mut m = i;
            while m < e
                invariant
                    i <= m <= e <= len,
                    len == cs.len(),
                    out@ == before + cs@.subrange(i as int, m as int),
                decreases e - m,
            {
                out.push(cs[m]);
                m = m + 1;
                assert(out@ =~= before + cs@.subrange(i as int, m as int));
            }
            assert(strip_scan(cs@, i as int) == cs@.subrange(i as int, e as int) + strip_scan(cs@, e as int));
            i = e;
        } else if c == '\\' && len - i > 2 && cs[i + 1] == '\r' && cs[i + 2] == '\n' {
            out.push(' ');
            i = i + 3;
        } else if c == '\\' && i + 1 < len && (cs[i + 1] == '\n' || cs[i + 1] == '\r') {
            out.push(' ');
            i = i + 2;
        } else {
            out.push(c);
            i = i + 1;
        }
    }
    assert(out@ + strip_scan(cs@, i as int) == out@);
    let t = trim_chars(out.as_slice());
    string_from_chars(t.as_slice())
}


/// The ranges `ms` blanked out of `b` in order, each clipped to the end
pub open spec fn mask_all(b: Seq<u8>, ms: Seq<(usize, usize)>) -> Seq<u8>
    decreases ms.len(),
{
    if ms.len() == 0 {
        b
    } else {
        let r = ms.last();
        let before = mask_all(b, ms.drop_last());
        blank_range(before, r.0 as int, if r.1 <= before.len() { r.1 as int } else { before.len() as int })
    }
}

/// The ranges a finished scan blanks out: those recorded, and the inactive
/// region still open at the end
pub open spec fn final_masked(src: Seq<u8>, st: ScanState) -> Seq<(usize, usize)> {
    match st.inactive_since {
        Some(since) => st.masked.push((since, src.len() as usize)),
        None => st.masked,
    }
}

/// The bytes of the preprocessed text: masked ranges and function bodies
/// blanked out
pub open spec fn preprocessed_bytes(src: Seq<u8>, st: ScanState) -> Seq<u8> {
    body_scan(mask_all(src, final_masked(src, st)), 0, Seq::empty(), 0, false)
}

/// Whether `out` is `b` with some bytes other than line breaks replaced by spaces
pub open spec fn blanked_from(out: Seq<u8>, b: Seq<u8>) -> bool {
    out.len() == b.len() && forall|k: int| 0 <= k < b.len() ==> #[trigger] out[k] == b[k] || (out[k] == 32
        && b[k] != 10 && b[k] != 13)
}

/// What preprocessing `source` gives: `None` when the scan fails on it;
/// otherwise a text whose UTF-8 bytes are the source's bytes with the masked
/// regions and function bodies blanked
pub open spec fn preprocess_result(source: Seq<char>, r: Option<Preprocessed>) -> bool {
    let src = encode_utf8(source);
    match scan_source(src) {
        None => r is None,
        Some(st) => match r {
            Some(p) => {
                &&& valid_utf8(preprocessed_bytes(src, st))
                &&& p.text@ == decode_utf8(preprocessed_bytes(src, st))
                &&& encode_utf8(p.text@) == preprocessed_bytes(src, st)
                &&& p.items@ == st.items
                &&& macros_view(p.macros@) == st.macros
            },
            None => false,
        },
    }
}

/// Preprocesses `source`, or returns `None` where a directive line holds
/// a literal that runs past the end of the source
pub fn preprocess_checked(source: &str) -> (r: Option<Preprocessed>)
    requires
        encode_utf8(source@).len() + 8 < usize::MAX,
    ensures
        preprocess_result(source@, r),
        r matches Some(p) ==> crate::comments::lines_fit(p.items@),
        r matches Some(p) ==> forall|i: int| 0 <= i < p.macros@.len() ==> (#[trigger] p.macros@[i]).name@.len() > 0,
{
    let src = source.as_bytes();
    let mut s = Scanner {
        pos: 0,
        line: 1,
        stack: Vec::new(),
        items: Vec::new(),
        macros: Vec::new(),
        masked: Vec::new(),
        inactive_since: None,
    };
    assert(macros_view(s.macros@) =~= Seq::<MacroView>::empty());
    assert(s@ =~= initial_state());
    if !s.run(src) {
        return None;
    }
    let ghost st = s@;
    assert forall|i: int| 0 <= i < s.macros@.len() implies (#[trigger] s.macros@[i]).name@.len() > 0 by {
        assert(macros_view(s.macros@)[i] == s.macros@[i]@);
    }
    assert(crate::comments::lines_fit(s.items@)) by {
        assert forall|k: int| 0 <= k < s.items@.len() implies (#[trigger] s.items@[k] matches Item::Comment(c)
            ==> c.end_line < usize::MAX) by {
            assert(st.items[k] == s.items@[k]);
        }
    }
    match s.inactive_since {
        Some(since) => {
            s.masked.push((since, src.len()));
        },
        None => {},
    }
    assert(s.masked@ == final_masked(src@, st));
    let mut bytes = vstd::slice::slice_to_vec(src);
    let mut j: usize = 0;
    while j < s.masked.len()
        invariant
            j <= s.masked.len(),
            s.masked@ == final_masked(src@, st),
            wf(src@, st),
            bytes@ == mask_all(src@, s.masked@.subrange(0, j as int)),
            bytes@.len() == src@.len(),
        decreases s.masked.len() - j,
    {
        let (a, b) = s.masked[j];
        let end = if b <= bytes.len() { b } else { bytes.len() };
        let ghost before = bytes@;
        assert(s.masked@.subrange(0, j + 1).drop_last() == s.masked@.subrange(0, j as int));
        assert(a <= src.len());
        let mut k = a;
        while k < end
            invariant
                a <= k,
                k <= end || a >= end,
                a >= end ==> k == a,
                end <= bytes.len(),
                bytes@.len() == before.len(),
                bytes@ == blank_range(before, a as int, k as int),
            decreases end - k,
        {
            let v = bytes[k];
            if v != 10 && v != 13 {
                bytes.set(k, 32);
            }
            k = k + 1;
            assert(bytes@ =~= blank_range(before, a as int, k as int));
        }
        assert(bytes@ =~= blank_range(before, a as int, end as int));
        j = j + 1;
    }
    assert(s.masked@.subrange(0, s.masked@.len() as int) == s.masked@);
    blank_bodies(&mut bytes);
    proof {
        law_text_valid(source@, st);
        decode_utf8_encode_utf8(bytes@);
    }
    let text = string_from_bytes(bytes.as_slice());
    Some(Preprocessed { text: text, items: s.items, macros: s.macros })
}


proof fn lemma_blanked_trans(x: Seq<u8>, y: Seq<u8>, z: Seq<u8>)
    requires
        blanked_from(x, y),
        blanked_from(y, z),
    ensures
        blanked_from(x, z),
{
    assert forall|k: int| 0 <= k < z.len() implies #[trigger] x[k] == z[k] || (x[k] == 32 && z[k] != 10
        && z[k] != 13) by {
        assert(x[k] == y[k] || (x[k] == 32 && y[k] != 10 && y[k] != 13));
        assert(y[k] == z[k] || (y[k] == 32 && z[k] != 10 && z[k] != 13));
    }
}

proof fn lemma_mask_all_blanked(b: Seq<u8>, ms: Seq<(usize, usize)>)
    ensures
        blanked_from(mask_all(b, ms), b),
    decreases ms.len(),
{
    if ms.len() > 0 {
        lemma_mask_all_blanked(b, ms.drop_last());
        let before = mask_all(b, ms.drop_last());
        let r = ms.last();
        let to = if r.1 <= before.len() { r.1 as int } else { before.len() as int };
        assert(blanked_from(blank_range(before, r.0 as int, to), before));
        lemma_blanked_trans(blank_range(before, r.0 as int, to), before, b);
    }
}

proof fn lemma_body_scan_blanked(b: Seq<u8>, i: int, parens: Seq<usize>, prev: u8, inc: bool)
    ensures
        blanked_from(body_scan(b, i, parens, prev, inc), b),
    decreases b.len() + 2 - i,
{
    if i < 0 || i >= b.len() {
    } else if b[i] == 47 && i + 1 < b.len() && b[i + 1] == 47 {
        let e = line_comment_end(b, i);
        if !(e <= i || e > b.len()) {
            lemma_body_scan_blanked(b, e, parens, prev, inc);
        }
    } else if b[i] == 47 && i + 1 < b.len() && b[i + 1] == 42 {
        let e = after_block(b, i);
        if !(e <= i || e > b.len() + 2) {
            lemma_body_scan_blanked(b, e, parens, prev, inc);
        }
    } else if b[i] == 34 || b[i] == 39 {
        let e = literal_end(b, i + 1, b[i]);
        if !(e <= i || e > b.len()) {
            lemma_body_scan_blanked(b, e, parens, b[i], inc);
        }
    } else if b[i] == 40 {
        lemma_body_scan_blanked(b, i + 1, parens.push((i + 1) as usize), b[i], inc);
    } else if b[i] == 41 {
        let inc2 = parens.len() > 0 && is_enum_increment(b, parens.last() as int, i);
        lemma_body_scan_blanked(b, i + 1, if parens.len() > 0 { parens.drop_last() } else { parens }, b[i], inc2);
    } else if b[i] == 123 && prev == 41 && !inc && brace_scan(b, i, 0) is Some {
        let e = brace_scan(b, i, 0)->0;
        if !(e < i || e >= b.len()) {
            let nb = blank_range(b, i + 1, e);
            lemma_body_scan_blanked(nb, e + 1, parens, 125, inc);
            lemma_blanked_trans(body_scan(nb, e + 1, parens, 125, inc), nb, b);
        }
    } else {
        lemma_body_scan_blanked(b, i + 1, parens, if is_space(b[i]) { prev } else { b[i] }, inc);
    }
}

/// Preprocessing keeps byte offsets and line numbers: the text's bytes are
/// the source's bytes, some of them other than line breaks turned into
/// spaces.
pub proof fn law_offsets_kept(source: Seq<char>, st: ScanState)
    requires
        scan_source(encode_utf8(source)) == Some(st),
    ensures
        blanked_from(preprocessed_bytes(encode_utf8(source), st), encode_utf8(source)),
{
    let src = encode_utf8(source);
    let masked = mask_all(src, final_masked(src, st));
    lemma_mask_all_blanked(src, final_masked(src, st));
    lemma_body_scan_blanked(masked, 0, Seq::empty(), 0, false);
    lemma_blanked_trans(preprocessed_bytes(src, st), masked, src);
}

/// Whether `k` starts a character of `b` or is its end
pub open spec fn starts_char(b: Seq<u8>, k: int) -> bool {
    k >= b.len() || (0 <= k && !is_continuation_byte(b[k]))
}

proof fn lemma_ascii_valid(m: Seq<u8>)
    requires
        forall|k: int| 0 <= k < m.len() ==> #[trigger] m[k] < 0x80,
    ensures
        valid_utf8(m),
{
    assert(m.subrange(0, 0) =~= Seq::<u8>::empty());
    assert(valid_utf8(Seq::<u8>::empty()));
    assert(forall|k: int| 0 <= 0 <= k < m.len() <= m.len() ==> #[trigger] is_leading_byte_width_1(m[k]));
    partial_valid_utf8_extend_ascii_block(m, 0, m.len() as int);
    assert(m.subrange(0, m.len() as int) =~= m);
}

proof fn lemma_boundary(b: Seq<u8>, k: int)
    requires
        valid_utf8(b),
        0 <= k,
        starts_char(b, k),
    ensures
        is_char_boundary(b, if k < b.len() { k } else { b.len() as int }),
{
    if k < b.len() {
        is_char_boundary_iff_not_is_continuation_byte(b, k);
    } else {
        is_char_boundary_start_end_of_seq(b);
    }
}

proof fn lemma_blank_range_valid(b: Seq<u8>, from: int, to: int)
    requires
        valid_utf8(b),
        0 <= from,
        to <= b.len(),
        starts_char(b, from),
        starts_char(b, to),
    ensures
        valid_utf8(blank_range(b, from, to)),
{
    if from >= to {
        assert(blank_range(b, from, to) =~= b);
    } else {
        lemma_boundary(b, from);
        valid_utf8_split(b, from);
        let tail = b.subrange(from, b.len() as int);
        assert(starts_char(tail, to - from));
        lemma_boundary(tail, to - from);
        valid_utf8_split(tail, to - from);
        let head = b.subrange(0, from);
        let rest = tail.subrange(to - from, tail.len() as int);
        let nb = blank_range(b, from, to);
        let mid = nb.subrange(from, to);
        assert forall|k: int| 0 <= k < mid.len() implies #[trigger] mid[k] < 0x80 by {
            assert(mid[k] == nb[from + k]);
        }
        lemma_ascii_valid(mid);
        valid_utf8_concat(head, mid);
        valid_utf8_concat(head + mid, rest);
        assert(nb =~= head + mid + rest);
    }
}

proof fn lemma_mask_all_valid(b: Seq<u8>, ms: Seq<(usize, usize)>)
    requires
        valid_utf8(b),
        forall|q: int| 0 <= q < ms.len() ==> ascii_or_end(b, (#[trigger] ms[q]).0 as int) && ascii_or_end(b,
            ms[q].1 as int),
    ensures
        valid_utf8(mask_all(b, ms)),
    decreases ms.len(),
{
    if ms.len() > 0 {
        let rest = ms.drop_last();
        assert forall|q: int| 0 <= q < rest.len() implies ascii_or_end(b, (#[trigger] rest[q]).0 as int)
            && ascii_or_end(b, rest[q].1 as int) by {
            assert(rest[q] == ms[q]);
        }
        lemma_mask_all_valid(b, rest);
        lemma_mask_all_blanked(b, rest);
        let before = mask_all(b, rest);
        let r = ms.last();
        assert(ascii_or_end(b, r.0 as int) && ascii_or_end(b, r.1 as int)) by {
            assert(r == ms[ms.len() - 1]);
        }
        let to = if r.1 <= before.len() { r.1 as int } else { before.len() as int };
        assert(starts_char(before, r.0 as int)) by {
            if r.0 < before.len() {
                assert(before[r.0 as int] == b[r.0 as int] || before[r.0 as int] == 32);
            }
        }
        assert(starts_char(before, to)) by {
            if to < before.len() {
                assert(before[to] == b[to] || before[to] == 32);
            }
        }
        lemma_blank_range_valid(before, r.0 as int, to);
    }
}

proof fn lemma_after_ascii(b: Seq<u8>, i: int)
    requires
        valid_utf8(b),
        0 <= i < b.len(),
        b[i] < 0x80,
    ensures
        starts_char(b, i + 1),
{
    if i + 1 < b.len() {
        is_char_boundary_iff_not_is_continuation_byte(b, i);
        valid_utf8_split(b, i);
        let tail = b.subrange(i, b.len() as int);
        assert(tail[0] == b[i]);
        assert(valid_utf8(tail));
        let next = pop_first_scalar(tail);
        assert(next =~= b.subrange(i + 1, b.len() as int));
        assert(valid_utf8(next));
        assert(next.len() > 0);
        assert(valid_first_scalar(next));
        assert(next[0] == b[i + 1]);
    }
}

proof fn lemma_body_scan_valid(b: Seq<u8>, i: int, parens: Seq<usize>, prev: u8, inc: bool)
    requires
        valid_utf8(b),
    ensures
        valid_utf8(body_scan(b, i, parens, prev, inc)),
    decreases b.len() + 2 - i,
{
    if i < 0 || i >= b.len() {
    } else if b[i] == 47 && i + 1 < b.len() && b[i + 1] == 47 {
        let e = line_comment_end(b, i);
        if !(e <= i || e > b.len()) {
            lemma_body_scan_valid(b, e, parens, prev, inc);
        }
    } else if b[i] == 47 && i + 1 < b.len() && b[i + 1] == 42 {
        let e = after_block(b, i);
        if !(e <= i || e > b.len() + 2) {
            lemma_body_scan_valid(b, e, parens, prev, inc);
        }
    } else if b[i] == 34 || b[i] == 39 {
        let e = literal_end(b, i + 1, b[i]);
        if !(e <= i || e > b.len()) {
            lemma_body_scan_valid(b, e, parens, b[i], inc);
        }
    } else if b[i] == 40 {
        lemma_body_scan_valid(b, i + 1, parens.push((i + 1) as usize), b[i], inc);
    } else if b[i] == 41 {
        let inc2 = parens.len() > 0 && is_enum_increment(b, parens.last() as int, i);
        lemma_body_scan_valid(b, i + 1, if parens.len() > 0 { parens.drop_last() } else { parens }, b[i], inc2);
    } else if b[i] == 123 && prev == 41 && !inc && brace_scan(b, i, 0) is Some {
        let e = brace_scan(b, i, 0)->0;
        lemma_brace_scan(b, i, 0);
        if !(e < i || e >= b.len()) {
            lemma_after_ascii(b, i);
            lemma_blank_range_valid(b, i + 1, e);
            let nb = blank_range(b, i + 1, e);
            lemma_body_scan_valid(nb, e + 1, parens, 125, inc);
        }
    } else {
        lemma_body_scan_valid(b, i + 1, parens, if is_space(b[i]) { prev } else { b[i] }, inc);
    }
}

/// The preprocessed text is valid UTF-8 wherever the source is: blanking
/// never starts or stops inside a character
pub proof fn law_text_valid(source: Seq<char>, st: ScanState)
    requires
        encode_utf8(source).len() <= usize::MAX,
        scan_source(encode_utf8(source)) == Some(st),
    ensures
        valid_utf8(preprocessed_bytes(encode_utf8(source), st)),
{
    let src = encode_utf8(source);
    encode_utf8_valid_utf8(source);
    law_masks_at_ascii(src);
    let ms = final_masked(src, st);
    assert forall|q: int| 0 <= q < ms.len() implies ascii_or_end(src, (#[trigger] ms[q]).0 as int)
        && ascii_or_end(src, ms[q].1 as int) by {
        if q < st.masked.len() {
            assert(ms[q] == st.masked[q]);
        }
    }
    lemma_mask_all_valid(src, ms);
    lemma_body_scan_valid(mask_all(src, ms), 0, Seq::empty(), 0, false);
}

proof fn lemma_mask_all_tail(b: Seq<u8>, ms: Seq<(usize, usize)>, q: int)
    requires
        0 <= q < ms.len(),
        ms[q].1 == b.len(),
    ensures
        forall|k: int| ms[q].0 <= k < b.len() ==> #[trigger] mask_all(b, ms)[k] == 32 || is_nl(b[k]),
    decreases ms.len(),
{
    let rest = ms.drop_last();
    lemma_mask_all_blanked(b, rest);
    let before = mask_all(b, rest);
    if q < ms.len() - 1 {
        assert(rest[q] == ms[q]);
        lemma_mask_all_tail(b, rest, q);
    }
    assert forall|k: int| ms[q].0 <= k < b.len() implies #[trigger] mask_all(b, ms)[k] == 32 || is_nl(b[k]) by {
        assert(before[k] == b[k] || before[k] == 32);
        if q < ms.len() - 1 {
            assert(before[k] == 32 || is_nl(b[k]));
        }
    }
}

/// Wherever the scan stops short of the end of the source (at an active
/// `#endinput`), everything from there on is blanked out of the text but
/// line breaks
pub proof fn law_rest_blanked(source: Seq<char>, st: ScanState)
    requires
        encode_utf8(source).len() <= usize::MAX,
        scan_source(encode_utf8(source)) == Some(st),
    ensures
        forall|k: int| st.pos <= k < encode_utf8(source).len() ==> #[trigger] preprocessed_bytes(encode_utf8(source), st)[k]
            == 32 || is_nl(encode_utf8(source)[k]),
{
    let src = encode_utf8(source);
    lemma_run_stop(src, initial_state(), true);
    if st.pos < src.len() {
        let ms = final_masked(src, st);
        let q = st.masked.len() - 1;
        assert(ms[q] == st.masked[q]);
        lemma_mask_all_tail(src, ms, q);
        let masked = mask_all(src, ms);
        lemma_mask_all_blanked(src, ms);
        lemma_body_scan_blanked(masked, 0, Seq::empty(), 0, false);
        assert forall|k: int| st.pos <= k < src.len() implies #[trigger] preprocessed_bytes(src, st)[k] == 32
            || is_nl(src[k]) by {
            assert(masked[k] == 32 || is_nl(src[k]));
            let out = body_scan(masked, 0, Seq::empty(), 0, false);
            assert(out[k] == masked[k] || out[k] == 32);
        }
    }
}

/// The macro table of a preprocessed source: macros in the order of their
/// `#define`s, each removed, if at all, after its definition; at most one of
/// each name still defined; each clean value the raw value stripped of
/// comments and continuations
pub proof fn law_preprocessed_macros(source: Seq<char>, p: Preprocessed)
    requires
        encode_utf8(source).len() <= usize::MAX,
        preprocess_result(source, Some(p)),
    ensures
        forall|i: int, j: int| 0 <= i < j < p.macros@.len() ==> (#[trigger] p.macros@[i]@).defined_at < (
            #[trigger] p.macros@[j]@).defined_at,
        forall|i: int| 0 <= i < p.macros@.len() ==> ((#[trigger] p.macros@[i]@).undefined_at matches Some(u) ==> p.macros@[i]@.defined_at < u),
        forall|i: int| 0 <= i < p.macros@.len() ==> (#[trigger] p.macros@[i]@).clean_value == trim(strip_scan(p.macros@[i]@.value, 0)),
        one_live_each(macros_view(p.macros@)),
{
    let src = encode_utf8(source);
    law_macro_table(src);
    let ms = macros_view(p.macros@);
    assert forall|i: int| 0 <= i < p.macros@.len() implies ms[i] == #[trigger] p.macros@[i]@ by {}
}

/// Preprocesses `source`. The source must not hold a directive line whose
/// literal runs past the end of the source (on which the scan fails).
pub fn preprocess(source: &str) -> (r: Preprocessed)
    requires
        encode_utf8(source@).len() + 8 < usize::MAX,
        scan_source(encode_utf8(source@)) is Some,
    ensures
        preprocess_result(source@, Some(r)),
        crate::comments::lines_fit(r.items@),
        forall|i: int| 0 <= i < r.macros@.len() ==> (#[trigger] r.macros@[i]).name@.len() > 0,
{
    match preprocess_checked(source) {
        Some(p) => p,
        None => {
            assert(false);
            Preprocessed { text: String::new(), items: Vec::new(), macros: Vec::new() }
        },
    }
}

} // verus!
