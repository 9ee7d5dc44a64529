//! SourcePawn include parsing: preprocessing, the syntax tree, the search
//! for errors that may have swallowed declarations, and extraction.

use vstd::prelude::*;
use vstd::utf8::encode_utf8;
use crate::text::{chars_of, string_from_chars, string_from_bytes, chars_eq, char_is_alphanumeric, utf8_lossy, alphanumeric};
use crate::preprocess::{preprocess, preprocess_checked, Preprocessed};
use crate::comments::lines_fit;
use crate::preprocess::scan::scan_source;
use crate::syntax::{SyntaxTree, TreeError, parse_tree, tree_ok, children_ok, sourcepawn_nodes, records_fit, tree_copied};
use crate::preprocess::{preprocessed_bytes, preprocess_result};
use crate::comments::block_scan;
use crate::extract::{Extractor, documented, live_define, line_starts_upto};
use crate::schema::Strand;
use crate::chronicle::strand_keyed;

verus! {

/// Why an include could not be parsed
#[derive(Debug)]
pub enum AlternatorError {
    /// The SourcePawn grammar was refused
    Language(String),
    /// The content could not be parsed
    ParseFail,
    /// A syntax error that may have swallowed a declaration
    Syntax { line: usize, column: usize, snippet: String },
}

fn kind_is(t: &SyntaxTree, i: usize, k: &[char]) -> (r: bool)
    requires
        i < t.nodes.len(),
    ensures
        r == (t.nodes@[i as int].kind@ == k@),
{
    let cs = chars_of(t.nodes[i].kind.as_str());
    chars_eq(cs.as_slice(), k)
}

/// Characters that make up words: alphanumerics and `_`
pub open spec fn word_char(c: char) -> bool {
    alphanumeric(c) || c == '_'
}

/// The keywords that start declarations
pub open spec fn declaration_keywords() -> Seq<Seq<char>> {
    seq![
        seq!['n', 'a', 't', 'i', 'v', 'e'],
        seq!['f', 'o', 'r', 'w', 'a', 'r', 'd'],
        seq!['m', 'e', 't', 'h', 'o', 'd', 'm', 'a', 'p'],
        seq!['e', 'n', 'u', 'm'],
        seq!['t', 'y', 'p', 'e', 'd', 'e', 'f'],
        seq!['t', 'y', 'p', 'e', 's', 'e', 't'],
        seq!['f', 'u', 'n', 'c', 't', 'a', 'g'],
        seq!['f', 'u', 'n', 'c', 'e', 'n', 'u', 'm'],
        seq!['p', 'r', 'o', 'p', 'e', 'r', 't', 'y'],
    ]
}

/// `s[a..b]` is a whole word of `s` (a maximal run of word characters)
pub open spec fn whole_word(s: Seq<char>, a: int, b: int) -> bool {
    &&& 0 <= a <= b <= s.len()
    &&& a == 0 || !word_char(s[a - 1])
    &&& b == s.len() || !word_char(s[b])
    &&& forall|i: int| a <= i < b ==> word_char(#[trigger] s[i])
}

/// Whether one of the words of `s` is a declaration keyword
pub open spec fn mentions_declaration(s: Seq<char>) -> bool {
    exists|a: int, b: int| whole_word(s, a, b) && #[trigger] declaration_keywords().contains(s.subrange(a, b))
}

fn is_keyword(word: &Vec<char>) -> (r: bool)
    ensures
        r == declaration_keywords().contains(word@),
{
    let keywords: [&[char]; 9] = [&['n', 'a', 't', 'i', 'v', 'e'], &['f', 'o', 'r', 'w', 'a', 'r', 'd'], &['m', 'e', 't',
        'h', 'o', 'd', 'm', 'a', 'p'], &['e', 'n', 'u', 'm'], &['t', 'y', 'p', 'e', 'd', 'e', 'f'], &['t', 'y', 'p', 'e',
        's', 'e', 't'], &['f', 'u', 'n', 'c', 't', 'a', 'g'], &['f', 'u', 'n', 'c', 'e', 'n', 'u', 'm'], &['p', 'r', 'o',
        'p', 'e', 'r', 't', 'y']];
    let ghost ks = declaration_keywords();
    assert(forall|j: int| 0 <= j < 9 ==> (#[trigger] keywords@[j])@ == ks[j]);
    let mut j: usize = 0;
    while j < 9
        invariant
            j <= 9,
            ks == declaration_keywords(),
            forall|q: int| 0 <= q < 9 ==> (#[trigger] keywords@[q])@ == ks[q],
            forall|q: int| 0 <= q < j ==> ks[q] != word@,
        decreases 9 - j,
    {
        if chars_eq(word.as_slice(), keywords[j]) {
            assert(ks[j as int] == word@);
            return true;
        }
        j = j + 1;
    }
    assert(!ks.contains(word@));
    false
}

/// Whether one of the words of `s` (split on characters that are neither
/// alphanumeric nor `_`) is a declaration keyword
pub fn has_declaration_keyword(s: &Vec<char>) -> (r: bool)
    ensures
        r == mentions_declaration(s@),
{
    let mut word: Vec<char> = Vec::new();
    let ghost mut ws: int = 0;
    let mut k: usize = 0;
    while k < s.len()
        invariant
            k <= s.len(),
            0 <= ws <= k,
            word@ == s@.subrange(ws, k as int),
            ws == 0 || !word_char(s@[ws - 1]),
            forall|i: int| ws <= i < k ==> word_char(#[trigger] s@[i]),
            forall|a: int, b: int|
                whole_word(s@, a, b) && b < k ==> !(#[trigger] declaration_keywords().contains(s@.subrange(a, b))),
        decreases s.len() - k,
    {
        if char_is_alphanumeric(s[k]) || s[k] == '_' {
            word.push(s[k]);
            proof {
                assert(word@ =~= s@.subrange(ws, k + 1));
            }
        } else {
            if is_keyword(&word) {
                assert(whole_word(s@, ws, k as int));
                return true;
            }
            proof {
                assert forall|a: int, b: int|
                    whole_word(s@, a, b) && b < k + 1 implies !(#[trigger] declaration_keywords().contains(s@.subrange(a, b))) by {
                    if b == k {
                        lemma_same_start(s@, a, ws, k as int);
                    }
                }
                ws = k + 1;
            }
            word = Vec::new();
            proof {
                assert(word@ =~= s@.subrange(ws, k + 1));
            }
        }
        k = k + 1;
    }
    let r = is_keyword(&word);
    proof {
        if r {
            assert(whole_word(s@, ws, s@.len() as int));
        } else {
            assert forall|a: int, b: int| whole_word(s@, a, b) implies !(#[trigger] declaration_keywords().contains(s@.subrange(a, b))) by {
                if b == s@.len() {
                    lemma_same_start(s@, a, ws, b);
                }
            }
        }
    }
    r
}

/// Two starts of word runs ending at `b` are the same
proof fn lemma_same_start(s: Seq<char>, a: int, ws: int, b: int)
    requires
        0 <= a <= b <= s.len(),
        0 <= ws <= b,
        a == 0 || !word_char(s[a - 1]),
        ws == 0 || !word_char(s[ws - 1]),
        forall|i: int| a <= i < b ==> word_char(#[trigger] s[i]),
        forall|i: int| ws <= i < b ==> word_char(#[trigger] s[i]),
    ensures
        a == ws,
{
    if a < ws {
        assert(word_char(s[ws - 1]));
    } else if ws < a {
        assert(word_char(s[a - 1]));
    }
}

/// The text of node `i`: its bytes of `bytes`, invalid UTF-8 replaced
pub open spec fn node_text(t: SyntaxTree, bytes: Seq<u8>, i: int) -> Seq<char> {
    utf8_lossy(bytes.subrange(t.nodes@[i].start_byte as int, t.nodes@[i].end_byte as int))
}

/// Whether node `i` stands at the top level: its parent is the source file,
/// or it has none
pub open spec fn top_level(t: SyntaxTree, i: int) -> bool {
    match t.nodes@[i].parent {
        Some(p) => p < t.nodes@.len() && t.nodes@[p as int].kind@ == seq![
            's',
            'o',
            'u',
            'r',
            'c',
            'e',
            '_',
            'f',
            'i',
            'l',
            'e',
        ],
        None => true,
    }
}

/// The first error below node `i` that may have swallowed a declaration, as
/// its one based line and column and at most 80 characters of its text:
/// errors in function bodies (`block`s) and missing tokens are tolerated, and
/// so are top level errors whose text has no declaration keyword; children
/// are searched last to first
pub open spec fn fatal_error_of(t: SyntaxTree, bytes: Seq<u8>, i: int) -> Option<(int, int, Seq<char>)>
    decreases t.nodes@.len() - i, 1int,
{
    if !(0 <= i < t.nodes@.len()) {
        None
    } else {
        let n = t.nodes@[i];
        if n.kind@ == seq!['b', 'l', 'o', 'c', 'k'] || !n.has_error && !n.is_missing || n.is_missing {
            None
        } else if n.is_error {
            let snippet = node_text(t, bytes, i);
            if !top_level(t, i) || mentions_declaration(snippet) {
                Some((n.row + 1, n.column + 1, snippet.take(if snippet.len() < 80 { snippet.len() as int } else { 80 })))
            } else {
                None
            }
        } else if i < t.children@.len() {
            fatal_in_children(t, bytes, i, t.children@[i]@.len() as int)
        } else {
            None
        }
    }
}

/// The first error among the first `k` children of node `i`, searched last
/// to first
pub open spec fn fatal_in_children(t: SyntaxTree, bytes: Seq<u8>, i: int, k: int) -> Option<(int, int, Seq<char>)>
    decreases t.nodes@.len() - i, 0int, k,
{
    if k <= 0 || !(0 <= i < t.children@.len()) || k > t.children@[i]@.len() {
        None
    } else {
        let c = t.children@[i]@[k - 1] as int;
        if i < c < t.nodes@.len() {
            match fatal_error_of(t, bytes, c) {
                Some(e) => Some(e),
                None => fatal_in_children(t, bytes, i, k - 1),
            }
        } else {
            None
        }
    }
}

/// The first error below node `i` that may have swallowed a declaration,
/// searching children last to first; errors in function bodies and
/// missing tokens are tolerated, and so are top level errors without a
/// declaration keyword
pub fn find_fatal_error(t: &SyntaxTree, text: &str, i: usize) -> (r: Option<AlternatorError>)
    requires
        tree_ok(t, text.len() as int),
        i < t.nodes.len(),
    ensures
        match fatal_error_of(*t, encode_utf8(text@), i as int) {
            Some((line, column, snippet)) => r matches Some(AlternatorError::Syntax { line: l, column: c, snippet: sn })
                && l == line && c == column && sn@ == snippet,
            None => r is None,
        },
    decreases t.nodes.len() - i,
{
    let n = &t.nodes[i];
    if kind_is(t, i, &['b', 'l', 'o', 'c', 'k']) || !n.has_error && !n.is_missing {
        return None;
    }
    if n.is_missing {
        return None;
    }
    if n.is_error {
        let bytes = text.as_bytes();
        let snippet = chars_of(string_from_bytes(&bytes[n.start_byte..n.end_byte]).as_str());
        let top = match n.parent {
            Some(p) => p < t.nodes.len() && kind_is(t, p, &['s', 'o', 'u', 'r', 'c', 'e', '_', 'f', 'i', 'l', 'e']),
            None => true,
        };
        if !top || has_declaration_keyword(&snippet) {
            let mut head: Vec<char> = Vec::new();
            let mut k: usize = 0;
            while k < snippet.len() && k < 80
                invariant
                    k <= snippet.len(),
                    k <= 80,
                    head@ == snippet@.take(k as int),
                decreases snippet.len() - k,
            {
                head.push(snippet[k]);
                k = k + 1;
                assert(head@ =~= snippet@.take(k as int));
            }
            return Some(AlternatorError::Syntax {
                line: n.row + 1,
                column: n.column + 1,
                snippet: string_from_chars(head.as_slice()),
            });
        }
        return None;
    }
    let cs = &t.children[i];
    let mut k = cs.len();
    while k > 0
        invariant
            tree_ok(t, text.len() as int),
            i < t.nodes.len(),
            cs == &t.children@[i as int],
            k <= cs.len(),
            fatal_error_of(*t, encode_utf8(text@), i as int) == fatal_in_children(*t, encode_utf8(text@), i as int, k as int),
        decreases k,
    {
        let c = cs[k - 1];
        assert(i < t.children@[i as int]@[k - 1] < t.nodes@.len());
        match find_fatal_error(t, text, c) {
            Some(e) => {
                return Some(e);
            },
            None => {},
        }
        k = k - 1;
    }
    None
}

/// The symbols of `s` are those an extractor over `source` and its
/// preprocessed form `pp` records from `tree`: functions, named enums,
/// typedefs, methodmaps, enum structs, legacy structs, typesets and
/// funcenums as their nodes give them, the entries of anonymous enums as
/// constants and no other, and a define for each macro still defined at the
/// end of the file and for no other name
pub open spec fn extracted_from(tree: SyntaxTree, source: Seq<char>, pp: Preprocessed, s: Strand) -> bool {
    &&& forall|n: Seq<char>| #[trigger] live_define(pp.macros@, n, pp.macros@.len() as int) is None ==> s.defines.get_spec(n) is None
    &&& exists|e: Extractor|
        #![trigger e.functions_extracted(tree, s.functions)]
        e.source@ == source && e.text@ == pp.text@ && *e.pp == pp && (e.comments.front(), e.comments.tail()) == block_scan(
            pp.items@,
            0,
            0,
            Seq::empty(),
            Seq::empty(),
        ) && e.line_starts@ == line_starts_upto(encode_utf8(source), encode_utf8(source).len() as int)
            && e.functions_extracted(tree, s.functions) && e.enums_recorded(tree, s.enums, tree.children@[0]@.len() as int)
            && e.typedefs_recorded(tree, s.typedefs, tree.children@[0]@.len() as int) && e.members_extracted(tree, s)
            && e.constants_extracted(tree, s.constants)
}

/// What the strand of a tree gives: the first syntax error that may have
/// swallowed a declaration, or a keyed strand documenting every top level
/// declaration, with its symbols as extracted from the tree
pub open spec fn tree_outcome(tree: SyntaxTree, source: Seq<char>, pp: Preprocessed, r: Result<Strand, AlternatorError>) -> bool {
    let bytes = encode_utf8(pp.text@);
    match fatal_error_of(tree, bytes, 0) {
        Some((line, column, snippet)) => r matches Err(AlternatorError::Syntax { line: l, column: c, snippet: sn })
            && l == line && c == column && sn@ == snippet,
        None => r matches Ok(s) && strand_keyed(s) && (forall|j: int|
            0 <= j < tree.children@[0]@.len() ==> documented(tree, bytes, #[trigger] tree.children@[0]@[j] as int, s))
            && extracted_from(tree, source, pp, s),
    }
}

/// The bytes the parser is given for `source`: its preprocessed text
pub open spec fn parsed_bytes(source: Seq<char>) -> Seq<u8> {
    let src = encode_utf8(source);
    preprocessed_bytes(src, scan_source(src)->Some_0)
}

/// What parsing `source` gives: `ParseFail` exactly when the tree of its
/// preprocessed text has a node out of range; otherwise the outcome of that
/// tree (never a refused grammar)
pub open spec fn parse_outcome(source: Seq<char>, r: Result<Strand, AlternatorError>) -> bool {
    let bytes = parsed_bytes(source);
    let nodes = sourcepawn_nodes(bytes);
    &&& r matches Ok(s) ==> strand_keyed(s)
    &&& !(r matches Err(AlternatorError::Language(_)))
    &&& (r matches Err(AlternatorError::ParseFail)) <==> !records_fit(nodes, bytes.len() as int)
    &&& records_fit(nodes, bytes.len() as int) ==> exists|t: SyntaxTree, pp: Preprocessed|
        #![trigger tree_copied(t, nodes), preprocess_result(source, Some(pp))]
        preprocess_result(source, Some(pp)) && tree_copied(t, nodes) && tree_ok(&t, bytes.len() as int)
            && t.nodes@.len() >= 1 && tree_outcome(t, source, pp, r)
}

/// The strand of a parsed source, from its syntax tree: an error that may
/// have swallowed a declaration fails the whole source; otherwise the
/// declarations are extracted
pub fn strand_of_tree(source: &str, pp: &Preprocessed, tree: &SyntaxTree) -> (r: Result<Strand, AlternatorError>)
    requires
        lines_fit(pp.items@),
        encode_utf8(pp.text@).len() <= usize::MAX,
        tree_ok(tree, encode_utf8(pp.text@).len() as int),
        tree.nodes.len() >= 1,
    ensures
        tree_outcome(*tree, source@, *pp, r),
{
    match find_fatal_error(tree, pp.text.as_str(), 0) {
        Some(e) => {
            return Err(e);
        },
        None => {},
    }
    let mut extractor = Extractor::new(source, pp);
    let ghost e0 = extractor;
    extractor.run(tree);
    assert(e0.functions_extracted(*tree, extractor.strand.functions));
    assert(e0.enums_recorded(*tree, extractor.strand.enums, tree.children@[0]@.len() as int));
    assert(e0.typedefs_recorded(*tree, extractor.strand.typedefs, tree.children@[0]@.len() as int));
    assert(e0.members_extracted(*tree, extractor.strand));
    assert(e0.constants_extracted(*tree, extractor.strand.constants));
    Ok(extractor.strand)
}

/// Parses SourcePawn source into a documentation strand.
///
/// Syntax errors inside function bodies are tolerated. Errors that may have
/// swallowed declarations fail the whole file, so that callers walking
/// history don't mistake a failed parse for removed symbols. The source
/// must be one the preprocessor scans to the end.
pub fn parse(source: &str) -> (r: Result<Strand, AlternatorError>)
    requires
        encode_utf8(source@).len() + 8 < usize::MAX,
        scan_source(encode_utf8(source@)) is Some,
    ensures
        parse_outcome(source@, r),
{
    let pp = preprocess(source);
    let bytes = pp.text.as_str().as_bytes();
    proof {
        assert(bytes@.len() == bytes.len());
        assert(encode_utf8(pp.text@) == parsed_bytes(source@));
        assert(parsed_bytes(source@).len() <= usize::MAX);
    }
    let tree = match parse_tree(pp.text.as_str()) {
        Ok(t) => t,
        Err(TreeError::Language(e)) => return Err(AlternatorError::Language(e)),
        Err(TreeError::Parse) => return Err(AlternatorError::ParseFail),
    };
    let r = strand_of_tree(source, &pp, &tree);
    proof {
        assert(tree_copied(tree, sourcepawn_nodes(parsed_bytes(source@))));
        assert(preprocess_result(source@, Some(pp)));
    }
    r
}

/// Parses raw file content; invalid UTF-8 is replaced. The content must be
/// one the preprocessor scans to the end.
pub fn parse_bytes(content: &[u8]) -> (r: Result<Strand, AlternatorError>)
    requires
        encode_utf8(utf8_lossy(content@)).len() + 8 < usize::MAX,
        scan_source(encode_utf8(utf8_lossy(content@))) is Some,
    ensures
        parse_outcome(utf8_lossy(content@), r),
{
    let text = string_from_bytes(content);
    parse(text.as_str())
}

/// `parse`, or `None` where the preprocessor cannot scan the source to the
/// end (a directive line's literal runs past it)
pub fn parse_checked(source: &str) -> (r: Option<Result<Strand, AlternatorError>>)
    requires
        encode_utf8(source@).len() + 8 < usize::MAX,
    ensures
        r is None <==> scan_source(encode_utf8(source@)) is None,
        r matches Some(x) ==> parse_outcome(source@, x),
{
    match preprocess_checked(source) {
        Some(_) => Some(parse(source)),
        None => None,
    }
}

/// What `parse_bytes_checked` gives for `content`: nothing when the text is
/// too long to index or the preprocessor cannot scan it to the end;
/// otherwise what parsing the text gives
pub open spec fn checked_outcome(content: Seq<u8>, r: Option<Result<Strand, AlternatorError>>) -> bool {
    let text = utf8_lossy(content);
    &&& encode_utf8(text).len() + 8 < usize::MAX ==> (r is None <==> scan_source(encode_utf8(text)) is None)
    &&& !(encode_utf8(text).len() + 8 < usize::MAX) ==> r is None
    &&& r matches Some(x) ==> parse_outcome(text, x)
}

/// `parse_bytes`, or `None` where the preprocessor cannot scan the content
/// to the end, or the content is too long to index
pub fn parse_bytes_checked(content: &[u8]) -> (r: Option<Result<Strand, AlternatorError>>)
    ensures
        checked_outcome(content@, r),
{
    let text = string_from_bytes(content);
    if text.as_str().as_bytes().len() >= usize::MAX - 8 {
        return None;
    }
    match preprocess_checked(text.as_str()) {
        Some(_) => Some(parse_bytes(content)),
        None => None,
    }
}

} // verus!
